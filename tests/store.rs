use physics_wasm::{from_particles, scalar_is_zero, to_particles, Color, Layout, Particle, Vec2, STRIDE, SUBSTEP_COUNT};

fn layout() -> Layout {
    Layout::new(0, 1, 4, 6)
}

fn particle(seed: f32, radius: f32) -> Particle {
    Particle {
        radius: radius.to_bits(),
        color: Color { r: (seed + 0.1).to_bits(), g: (seed + 0.2).to_bits(), b: (seed + 0.3).to_bits() },
        velocity: Vec2 { x: (seed + 0.4).to_bits(), y: (seed + 0.5).to_bits() },
        position: Vec2 { x: (seed + 0.6).to_bits(), y: (seed + 0.7).to_bits() },
    }
}

fn group(p: &Particle) -> Vec<u32> {
    vec![p.radius, p.color.r, p.color.g, p.color.b, p.velocity.x, p.velocity.y, p.position.x, p.position.y]
}

#[test]
fn layout_accepts_disjoint_offsets() {
    assert!(layout().is_well_formed());
    assert!(Layout::new(7, 4, 0, 2).is_well_formed());
}

#[test]
fn layout_rejects_overlap_and_overflow() {
    assert!(!Layout::new(0, 0, 4, 6).is_well_formed());
    assert!(!Layout::new(0, 1, 3, 6).is_well_formed());
    assert!(!Layout::new(0, 1, 4, 7).is_well_formed());
    assert!(!Layout::new(8, 1, 4, 6).is_well_formed());
    assert!(!Layout::new(0, 6, 2, 4).is_well_formed());
}

#[test]
fn zero_scalars_are_both_signs_of_zero() {
    assert!(scalar_is_zero(0.0f32.to_bits()));
    assert!(scalar_is_zero((-0.0f32).to_bits()));
    assert!(!scalar_is_zero(f32::MIN_POSITIVE.to_bits()));
    assert!(!scalar_is_zero(1.0f32.to_bits()));
}

#[test]
fn decode_skips_empty_slots_in_order() {
    let a = particle(1.0, 0.1);
    let b = particle(2.0, 0.2);
    let mut buf = group(&a);
    buf.extend(vec![0u32; STRIDE]);
    buf.extend(group(&b));
    let ps = to_particles(&buf, &layout());
    assert_eq!(ps, vec![a, b]);
}

#[test]
fn decode_treats_negative_zero_radius_as_empty() {
    let mut empty = group(&particle(3.0, 0.5));
    empty[0] = (-0.0f32).to_bits();
    let a = particle(1.0, 0.1);
    let mut buf = empty.clone();
    buf.extend(group(&a));
    assert_eq!(to_particles(&buf, &layout()), vec![a]);
}

#[test]
fn decode_reads_fields_at_the_given_offsets() {
    let lay = Layout::new(7, 4, 0, 2);
    let buf: Vec<u32> = (10u32..18).collect();
    let ps = to_particles(&buf, &lay);
    assert_eq!(
        ps,
        vec![Particle {
            radius: 17,
            color: Color { r: 14, g: 15, b: 16 },
            velocity: Vec2 { x: 10, y: 11 },
            position: Vec2 { x: 12, y: 13 },
        }]
    );
}

#[test]
fn decode_of_empty_buffer_is_empty() {
    assert!(to_particles(&vec![], &layout()).is_empty());
}

#[test]
fn encode_compacts_and_zero_fills() {
    let a = particle(1.0, 0.1);
    let out = from_particles(&vec![a], 3 * STRIDE, &layout());
    let mut expected = group(&a);
    expected.extend(vec![0u32; 2 * STRIDE]);
    assert_eq!(out, expected);
}

#[test]
fn encode_writes_fields_at_the_given_offsets() {
    let lay = Layout::new(7, 4, 0, 2);
    let p = Particle {
        radius: 17,
        color: Color { r: 14, g: 15, b: 16 },
        velocity: Vec2 { x: 10, y: 11 },
        position: Vec2 { x: 12, y: 13 },
    };
    let out = from_particles(&vec![p], STRIDE, &lay);
    assert_eq!(out, (10u32..18).collect::<Vec<u32>>());
}

#[test]
fn write_back_keeps_buffer_length() {
    let a = particle(1.0, 0.1);
    let mut buf = vec![0u32; STRIDE];
    buf.extend(group(&a));
    buf.extend(vec![0u32; STRIDE]);
    let ps = to_particles(&buf, &layout());
    let out = from_particles(&ps, buf.len(), &layout());
    assert_eq!(out.len(), buf.len());
    assert_eq!(from_particles(&vec![], 0, &layout()).len(), 0);
}

#[test]
fn empty_slot_past_active_particles_round_trips() {
    let a = particle(1.0, 0.1);
    let mut buf = vec![0u32; STRIDE];
    buf.extend(group(&a));
    buf.extend(vec![0u32; STRIDE]);
    let out = from_particles(&to_particles(&buf, &layout()), buf.len(), &layout());
    assert_eq!(out[..STRIDE].to_vec(), group(&a));
    assert_eq!(out[2 * STRIDE..].to_vec(), buf[2 * STRIDE..].to_vec());
    assert!(out[STRIDE..].iter().all(|&s| s == 0));
}

#[test]
fn encode_then_decode_gives_particles_back() {
    let ps = vec![particle(1.0, 0.1), particle(2.0, 0.25), particle(3.0, 0.05)];
    let buf = from_particles(&ps, 5 * STRIDE, &layout());
    assert_eq!(to_particles(&buf, &layout()), ps);
}

#[test]
fn a_tick_has_five_substeps() {
    assert_eq!(SUBSTEP_COUNT, 5);
}
