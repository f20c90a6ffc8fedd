use mobile_zipper::stars::{star_draws, StarDraw};

fn reference(count: usize) -> Vec<StarDraw> {
    let mut seed = 0x1234_5678_9abc_def0_u64;
    let mut out = Vec::new();
    for _ in 0..count {
        seed = seed.wrapping_mul(6364136223846793005).wrapping_add(1);
        let x = (seed >> 12) % 720;
        seed = seed.wrapping_mul(6364136223846793005).wrapping_add(1);
        let y = (seed >> 10) % 520;
        seed = seed.wrapping_mul(6364136223846793005).wrapping_add(1);
        let size = (seed >> 8) % 18;
        seed = seed.wrapping_mul(6364136223846793005).wrapping_add(1);
        let glow = (seed >> 6) % 55;
        out.push(StarDraw { x, y, size, glow });
    }
    out
}

#[test]
fn star_field_follows_the_generator() {
    assert_eq!(star_draws(78), reference(78));
    assert!(star_draws(0).is_empty());
}

#[test]
fn star_draws_stay_in_range() {
    for s in star_draws(200) {
        assert!(s.x < 720 && s.y < 520 && s.size < 18 && s.glow < 55);
    }
}

#[test]
fn first_star_is_fixed() {
    let first = star_draws(1)[0];
    assert_eq!(first, reference(1)[0]);
    assert_eq!(star_draws(5)[0], first);
}
