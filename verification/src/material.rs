//! The closed set of materials and the registry that resolves a surface's
//! material key.

use vstd::prelude::*;

verus! {

/// How a surface answers light. The set is closed: every surface is of
/// exactly one of these materials.
#[derive(Clone, Copy, Debug, PartialEq, Eq, Structural)]
pub enum Material {
    /// Diffuse: scatters around the normal.
    Flat,
    /// Specular: mirrors the incoming ray about the normal.
    Metal,
    /// Refractive: reflects or refracts at the boundary.
    Dielectric,
    /// Emissive: gives off light and ends the path.
    DiffuseLight,
}

/// The key under which the fallback material is registered.
pub open spec fn default_key() -> Seq<char> {
    "flat"@
}

/// The materials every registry starts with.
pub open spec fn canonical_materials() -> Map<Seq<char>, Material> {
    map![
        "flat"@ => Material::Flat,
        "metal"@ => Material::Metal,
        "glass"@ => Material::Dielectric,
        "diffuse_light"@ => Material::DiffuseLight,
    ]
}

/// What a lookup of `key` in `materials` answers: the material registered
/// under the key, and for a key that is not registered, the material
/// registered under the default key.
pub open spec fn resolve(materials: Map<Seq<char>, Material>, key: Seq<char>) -> Material {
    if materials.contains_key(key) {
        materials[key]
    } else {
        materials[default_key()]
    }
}

/// The four canonical keys are pairwise different.
pub proof fn lemma_canonical_keys_differ()
    ensures
        "flat"@ != "metal"@,
        "flat"@ != "glass"@,
        "flat"@ != "diffuse_light"@,
        "metal"@ != "glass"@,
        "metal"@ != "diffuse_light"@,
        "glass"@ != "diffuse_light"@,
{
    reveal_strlit("flat");
    reveal_strlit("metal");
    reveal_strlit("glass");
    reveal_strlit("diffuse_light");
    assert("flat"@.len() == 4);
    assert("metal"@.len() == 5);
    assert("glass"@.len() == 5);
    assert("diffuse_light"@.len() == 13);
    assert("metal"@[0] == 'm');
    assert("glass"@[0] == 'g');
}

/// What each canonical key resolves to in a registry of the canonical
/// materials.
pub proof fn lemma_canonical_keys_resolve()
    ensures
        resolve(canonical_materials(), "flat"@) == Material::Flat,
        resolve(canonical_materials(), "metal"@) == Material::Metal,
        resolve(canonical_materials(), "glass"@) == Material::Dielectric,
        resolve(canonical_materials(), "diffuse_light"@) == Material::DiffuseLight,
{
    lemma_canonical_keys_differ();
}

/// A key that is not among the canonical ones resolves, in a registry of
/// the canonical materials, to the material of the default key: the diffuse
/// one.
pub proof fn lemma_unregistered_key_gets_default(key: Seq<char>)
    requires
        !canonical_materials().contains_key(key),
    ensures
        resolve(canonical_materials(), key) == resolve(canonical_materials(), default_key()),
        resolve(canonical_materials(), key) == Material::Flat,
{
    lemma_canonical_keys_differ();
}

/// The registry of materials: each key is registered once, and the default
/// key is always among them.
pub struct MaterialsFactory {
    materials_list: Vec<(String, Material)>,
}

impl View for MaterialsFactory {
    type V = Map<Seq<char>, Material>;

    /// The registry as a map from key to material.
    closed spec fn view(&self) -> Map<Seq<char>, Material> {
        Map::new(
            |key: Seq<char>| Self::position(self.materials_list@, key) is Some,
            |key: Seq<char>| self.materials_list@[Self::position(self.materials_list@, key).unwrap()].1,
        )
    }
}

impl MaterialsFactory {
    /// The index of the entry with the given key, if there is one.
    spec fn position(entries: Seq<(String, Material)>, key: Seq<char>) -> Option<int> {
        if exists|i: int| 0 <= i < entries.len() && (#[trigger] entries[i]).0@ == key {
            Some(choose|i: int| 0 <= i < entries.len() && (#[trigger] entries[i]).0@ == key)
        } else {
            None
        }
    }

    /// No key is registered twice, and the default key is registered.
    #[verifier::type_invariant]
    spec fn well_formed(self) -> bool {
        &&& forall|i: int, j: int|
            0 <= i < j < self.materials_list@.len() ==> (#[trigger] self.materials_list@[i]).0@ != (
            #[trigger] self.materials_list@[j]).0@
        &&& Self::position(self.materials_list@, default_key()) is Some
    }

    /// A registry that holds the canonical materials.
    pub fn new() -> (factory: MaterialsFactory)
        ensures
            factory@ == canonical_materials(),
    {
        let mut all_materials: Vec<(String, Material)> = Vec::new();
        all_materials.push(("flat".to_owned(), Material::Flat));
        all_materials.push(("metal".to_owned(), Material::Metal));
        all_materials.push(("glass".to_owned(), Material::Dielectric));
        all_materials.push(("diffuse_light".to_owned(), Material::DiffuseLight));
        proof {
            lemma_canonical_keys_differ();
            let entries = all_materials@;
            assert(entries[0].0@ == "flat"@);
            assert(entries[1].0@ == "metal"@);
            assert(entries[2].0@ == "glass"@);
            assert(entries[3].0@ == "diffuse_light"@);
        }
        let factory = MaterialsFactory { materials_list: all_materials };
        proof {
            let entries = factory.materials_list@;
            assert forall|key: Seq<char>| #[trigger]
                factory@.contains_key(key) == canonical_materials().contains_key(key) by {
                if canonical_materials().contains_key(key) {
                    let i: int = if key == "flat"@ {
                        0
                    } else if key == "metal"@ {
                        1
                    } else if key == "glass"@ {
                        2
                    } else {
                        3
                    };
                    assert(entries[i].0@ == key);
                }
            }
            assert forall|key: Seq<char>| #[trigger]
                factory@.contains_key(key) implies factory@[key] == canonical_materials()[key] by {
                let i = Self::position(entries, key).unwrap();
                assert(entries[i].0@ == key);
            }
            assert(factory@ =~= canonical_materials());
        }
        factory
    }

    /// Resolves a material key. A key that is not registered is no error: it
    /// resolves to the default material.
    pub fn get_material_by_key(&self, material_type: String) -> (material: Material)
        ensures
            material == resolve(self@, material_type@),
            !self@.contains_key(material_type@) ==> material == self@[default_key()],
            self@.contains_key(default_key()),
    {
        proof {
            use_type_invariant(self);
        }
        match self.find(&material_type) {
            Some(result) => result,
            None => {
                let fallback = "flat".to_owned();
                let found = self.find(&fallback);
                assert(found is Some);
                found.unwrap()
            },
        }
    }

    /// The material registered under `key`, and `None` for a key that is not
    /// registered.
    pub fn find(&self, key: &String) -> (found: Option<Material>)
        ensures
            found == if self@.contains_key(key@) {
                Some(self@[key@])
            } else {
                None
            },
    {
        let mut i: usize = 0;
        while i < self.materials_list.len()
            invariant
                0 <= i <= self.materials_list@.len(),
                forall|j: int| 0 <= j < i ==> (#[trigger] self.materials_list@[j]).0@ != key@,
            decreases self.materials_list@.len() - i,
        {
            if self.materials_list[i].0 == *key {
                proof {
                    let entries = self.materials_list@;
                    assert(entries[i as int].0@ == key@);
                    let at = Self::position(entries, key@).unwrap();
                    assert(entries[at].0@ == key@);
                    use_type_invariant(self);
                    if at < i {
                        assert(entries[at].0@ != key@);
                    } else if at > i {
                        assert(entries[i as int].0@ != entries[at].0@);
                    }
                }
                return Some(self.materials_list[i].1);
            }
            i = i + 1;
        }
        None
    }
}

} // verus!
