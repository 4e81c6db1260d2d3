use tracer::material::Material;
use tracer::scene::Scene;
use tracer::scene::Step;
use tracer::scene::CONTINUATION;
use tracer::scene::ROULETTE_DEPTH;
use tracer::scene::UNBOUNDED;

const LOW: u64 = 0x3fb9_9999_9999_999a;
const HIGH: u64 = 0x3fec_cccc_cccc_cccd;

#[test]
fn draws() {
    assert_eq!(LOW, 0.1f64.to_bits());
    assert_eq!(HIGH, 0.9f64.to_bits());
}

fn scene_of(keys: &[&str]) -> Scene {
    Scene::new(keys.iter().map(|k| k.to_string()).collect())
}

#[test]
fn constants() {
    assert_eq!(ROULETTE_DEPTH, 3);
    assert_eq!(CONTINUATION, 0.3f64.to_bits());
    assert_eq!(UNBOUNDED, u64::MAX);
}

#[test]
fn scene_len() {
    assert_eq!(scene_of(&[]).len(), 0);
    assert_eq!(scene_of(&["flat", "metal"]).len(), 2);
}

#[test]
fn closest_is_the_smallest_hit() {
    let scene = scene_of(&["flat", "flat", "flat", "flat"]);
    assert_eq!(scene.get_closest_intersection(&vec![0, 5, 3, 0]), Some(3));
    assert_eq!(scene.get_closest_intersection(&vec![9, 9, 9, 9]), Some(9));
    assert_eq!(scene.get_closest_intersection(&vec![1]), Some(1));
}

#[test]
fn closest_of_misses_is_none() {
    let scene = scene_of(&["flat", "flat"]);
    assert_eq!(scene.get_closest_intersection(&vec![0, 0]), None);
    assert_eq!(scene.get_closest_intersection(&Vec::new()), None);
}

#[test]
fn unbounded_key_is_no_hit() {
    let scene = scene_of(&["flat", "flat"]);
    assert_eq!(scene.get_closest_intersection(&vec![UNBOUNDED, 0]), None);
    assert_eq!(scene.get_closest_intersection(&vec![UNBOUNDED, UNBOUNDED - 1]), Some(UNBOUNDED - 1));
}

#[test]
fn roulette_starts_beyond_depth_three() {
    assert!(!Scene::roulette_applies(0));
    assert!(!Scene::roulette_applies(3));
    assert!(Scene::roulette_applies(4));
    assert!(Scene::roulette_applies(i64::MAX));
    assert!(!Scene::roulette_applies(i64::MIN));
}

#[test]
fn roulette_ends_on_a_high_draw() {
    assert!(Scene::roulette_ends(4, HIGH));
    assert!(!Scene::roulette_ends(4, LOW));
    assert!(!Scene::roulette_ends(4, CONTINUATION));
    assert!(Scene::roulette_ends(4, CONTINUATION + 1));
    assert!(!Scene::roulette_ends(3, HIGH));
}

#[test]
fn empty_scene_is_dark() {
    let scene = scene_of(&[]);
    for depth in [0, 3, 4, 100] {
        for draw in [0.0f64, 0.3, 0.7] {
            assert_eq!(
                scene.render(depth, draw.to_bits(), &Vec::new(), &Vec::new()),
                Step::Terminate
            );
        }
    }
}

#[test]
fn miss_is_dark() {
    let scene = scene_of(&["flat", "metal"]);
    assert_eq!(scene.render(0, LOW, &vec![0, 0], &vec![0, 0]), Step::Terminate);
}

#[test]
fn nearest_surface_is_shaded() {
    let scene = scene_of(&["flat", "metal", "glass"]);
    assert_eq!(
        scene.render(0, HIGH, &vec![40, 20, 30], &vec![40, 20, 30]),
        Step::Shade { surface: 1, material: Material::Metal }
    );
    assert_eq!(
        scene.render(2, HIGH, &vec![0, 0, 30], &vec![0, 0, 30]),
        Step::Shade { surface: 2, material: Material::Dielectric }
    );
}

#[test]
fn first_of_equal_hits_is_shaded() {
    let scene = scene_of(&["glass", "metal", "flat"]);
    assert_eq!(
        scene.render(0, LOW, &vec![50, 7, 7], &vec![50, 7, 7]),
        Step::Shade { surface: 1, material: Material::Metal }
    );
}

#[test]
fn roulette_cuts_deep_paths() {
    let scene = scene_of(&["metal"]);
    let hits = vec![12];
    let shaded = Step::Shade { surface: 0, material: Material::Metal };
    assert_eq!(scene.render(4, HIGH, &hits, &hits), Step::Terminate);
    assert_eq!(scene.render(4, 0.30000000000000004f64.to_bits(), &hits, &hits), Step::Terminate);
    assert_eq!(scene.render(i64::MAX, 0.999f64.to_bits(), &hits, &hits), Step::Terminate);
    assert_eq!(scene.render(4, LOW, &hits, &hits), shaded);
    assert_eq!(scene.render(4, 0.3f64.to_bits(), &hits, &hits), shaded);
    assert_eq!(scene.render(4, 0.0f64.to_bits(), &hits, &hits), shaded);
    assert_eq!(scene.render(3, HIGH, &hits, &hits), shaded);
    assert_eq!(scene.render(0, HIGH, &hits, &hits), shaded);
    assert_eq!(scene.render(-1, HIGH, &hits, &hits), shaded);
}

#[test]
fn closest_hit_beyond_the_limit_is_dark() {
    let scene = scene_of(&["flat", "metal"]);
    assert_eq!(scene.render(0, LOW, &vec![30, 20], &vec![30, 0]), Step::Terminate);
    assert_eq!(scene.render(0, LOW, &vec![30, 20], &vec![0, 0]), Step::Terminate);
}

#[test]
fn unknown_material_key_is_shaded_flat() {
    let scene = scene_of(&["velvet"]);
    assert_eq!(
        scene.render(0, LOW, &vec![5], &vec![5]),
        Step::Shade { surface: 0, material: Material::Flat }
    );
}

#[test]
fn single_light_is_hit_and_path_ends_behind_it() {
    let scene = scene_of(&["diffuse_light"]);
    assert_eq!(
        scene.render(0, LOW, &vec![77], &vec![77]),
        Step::Shade { surface: 0, material: Material::DiffuseLight }
    );
    assert_eq!(scene.render(1, LOW, &vec![0], &vec![0]), Step::Terminate);
}
