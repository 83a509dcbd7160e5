use vstd::prelude::*;

use crate::layout::{Layout, STRIDE};

verus! {

/// A 2D vector of scalars (bit patterns of single-precision numbers).
#[derive(Clone, Copy, Debug, PartialEq, Eq)]
pub struct Vec2 {
    pub x: u32,
    pub y: u32,
}

/// A display color, carried through untouched.
#[derive(Clone, Copy, Debug, PartialEq, Eq)]
pub struct Color {
    pub r: u32,
    pub g: u32,
    pub b: u32,
}

/// One active circle of the working collection.
#[derive(Clone, Copy, Debug, PartialEq, Eq)]
pub struct Particle {
    pub radius: u32,
    pub color: Color,
    pub velocity: Vec2,
    pub position: Vec2,
}

/// The scalar is +0.0 or -0.0.
pub open spec fn is_zero_scalar(bits: u32) -> bool {
    bits == 0 || bits == 0x8000_0000
}

/// Number of whole groups in a buffer.
pub open spec fn slot_count(buf: Seq<u32>) -> nat {
    buf.len() / (STRIDE as nat)
}

/// The particle that group `k` of the buffer describes.
pub open spec fn slot_particle(buf: Seq<u32>, layout: Layout, k: int) -> Particle {
    let base = k * STRIDE;
    Particle {
        radius: buf[base + layout.radius],
        color: Color {
            r: buf[base + layout.color],
            g: buf[base + layout.color + 1],
            b: buf[base + layout.color + 2],
        },
        velocity: Vec2 { x: buf[base + layout.velocity], y: buf[base + layout.velocity + 1] },
        position: Vec2 { x: buf[base + layout.position], y: buf[base + layout.position + 1] },
    }
}

/// Group `k` holds a particle: its radius is not zero.
pub open spec fn slot_is_active(buf: Seq<u32>, layout: Layout, k: int) -> bool {
    !is_zero_scalar(buf[k * STRIDE + layout.radius])
}

/// The particles of the active groups among the first `n`, in buffer order.
pub open spec fn active_particles(buf: Seq<u32>, layout: Layout, n: nat) -> Seq<Particle>
    decreases n,
{
    if n == 0 {
        seq![]
    } else {
        let before = active_particles(buf, layout, (n - 1) as nat);
        if slot_is_active(buf, layout, n - 1) {
            before.push(slot_particle(buf, layout, n - 1))
        } else {
            before
        }
    }
}

/// The scalar that `p` puts at offset `o` of its group; zero where no field lies.
pub open spec fn field_at(p: Particle, layout: Layout, o: int) -> u32 {
    if o == layout.radius {
        p.radius
    } else if o == layout.color {
        p.color.r
    } else if o == layout.color + 1 {
        p.color.g
    } else if o == layout.color + 2 {
        p.color.b
    } else if o == layout.velocity {
        p.velocity.x
    } else if o == layout.velocity + 1 {
        p.velocity.y
    } else if o == layout.position {
        p.position.x
    } else if o == layout.position + 1 {
        p.position.y
    } else {
        0
    }
}

/// A zero-filled buffer of `len` scalars with particle `k` written into group `k`.
pub open spec fn encoded(ps: Seq<Particle>, layout: Layout, len: nat) -> Seq<u32> {
    Seq::new(
        len,
        |j: int|
            if j / (STRIDE as int) < ps.len() {
                field_at(ps[j / (STRIDE as int)], layout, j % (STRIDE as int))
            } else {
                0
            },
    )
}

pub(crate) proof fn lemma_active_particles_bounds(buf: Seq<u32>, layout: Layout, n: nat)
    ensures
        active_particles(buf, layout, n).len() <= n,
        forall|i: int|
            0 <= i < active_particles(buf, layout, n).len() ==> !is_zero_scalar(
                #[trigger] active_particles(buf, layout, n)[i].radius,
            ),
    decreases n,
{
    if n > 0 {
        lemma_active_particles_bounds(buf, layout, (n - 1) as nat);
    }
}

proof fn lemma_group_in_bounds(k: int, len: int)
    requires
        0 <= k < len / (STRIDE as int),
        0 <= len,
    ensures
        k * STRIDE + STRIDE <= len,
{
    assert(k * 8 + 8 <= len) by (nonlinear_arith)
        requires
            0 <= k < len / 8,
            0 <= len,
    ;
}

/// Reads one particle out of group `k`.
fn read_slot(buf: &Vec<u32>, layout: &Layout, k: usize) -> (p: Particle)
    requires
        layout.wf(),
        k < slot_count(buf@),
    ensures
        p == slot_particle(buf@, *layout, k as int),
{
    proof {
        lemma_group_in_bounds(k as int, buf.len() as int);
    }
    let base = k * STRIDE;
    Particle {
        radius: buf[base + layout.radius],
        color: Color {
            r: buf[base + layout.color],
            g: buf[base + layout.color + 1],
            b: buf[base + layout.color + 2],
        },
        velocity: Vec2 { x: buf[base + layout.velocity], y: buf[base + layout.velocity + 1] },
        position: Vec2 { x: buf[base + layout.position], y: buf[base + layout.position + 1] },
    }
}

/// Tells whether a scalar is +0.0 or -0.0.
pub fn scalar_is_zero(bits: u32) -> (r: bool)
    ensures
        r == is_zero_scalar(bits),
{
    bits == 0 || bits == 0x8000_0000
}

/// Compacts the buffer into the working collection: one particle for each
/// group whose radius is not zero, in buffer order. Groups with a zero
/// radius are empty slots and are left out.
pub fn to_particles(buf: &Vec<u32>, layout: &Layout) -> (r: Vec<Particle>)
    requires
        layout.wf(),
        buf.len() % STRIDE == 0,
    ensures
        r@ == active_particles(buf@, *layout, slot_count(buf@)),
        r.len() <= slot_count(buf@),
        forall|i: int| 0 <= i < r.len() ==> !is_zero_scalar(#[trigger] r@[i].radius),
{
    let n = buf.len() / STRIDE;
    let mut r: Vec<Particle> = Vec::new();
    let mut k: usize = 0;
    while k < n
        invariant
            n == slot_count(buf@),
            k <= n,
            layout.wf(),
            r@ == active_particles(buf@, *layout, k as nat),
        decreases n - k,
    {
        let p = read_slot(buf, layout, k);
        if !scalar_is_zero(p.radius) {
            r.push(p);
        }
        k = k + 1;
    }
    proof {
        lemma_active_particles_bounds(buf@, *layout, n as nat);
    }
    r
}

/// Writes the working collection back: a zero-filled buffer of `len`
/// scalars in which particle `k` occupies group `k`.
pub fn from_particles(particles: &Vec<Particle>, len: usize, layout: &Layout) -> (r: Vec<u32>)
    requires
        layout.wf(),
        len % STRIDE == 0,
        particles.len() * STRIDE <= len,
    ensures
        r.len() == len,
        r@ == encoded(particles@, *layout, len as nat),
{
    let mut r: Vec<u32> = vec![0u32; len];
    let mut k: usize = 0;
    while k < particles.len()
        invariant
            layout.wf(),
            len % STRIDE == 0,
            particles.len() * STRIDE <= len,
            k <= particles.len(),
            r.len() == len,
            forall|j: int|
                0 <= j < len ==> #[trigger] r@[j] == (if j / (STRIDE as int) < k {
                    field_at(particles@[j / (STRIDE as int)], *layout, j % (STRIDE as int))
                } else {
                    0
                }),
        decreases particles.len() - k,
    {
        let p = particles[k];
        let base = k * STRIDE;
        r.set(base + layout.radius, p.radius);
        r.set(base + layout.color, p.color.r);
        r.set(base + layout.color + 1, p.color.g);
        r.set(base + layout.color + 2, p.color.b);
        r.set(base + layout.velocity, p.velocity.x);
        r.set(base + layout.velocity + 1, p.velocity.y);
        r.set(base + layout.position, p.position.x);
        r.set(base + layout.position + 1, p.position.y);
        k = k + 1;
    }
    assert(r@ =~= encoded(particles@, *layout, len as nat));
    r
}

proof fn lemma_group_offset(k: int, o: int)
    requires
        0 <= k,
        0 <= o < STRIDE,
    ensures
        (k * STRIDE + o) / (STRIDE as int) == k,
        (k * STRIDE + o) % (STRIDE as int) == o,
{
}

proof fn lemma_encoded_slot(ps: Seq<Particle>, layout: Layout, len: nat, k: int)
    requires
        layout.wf(),
        len % (STRIDE as nat) == 0,
        ps.len() * STRIDE <= len,
        0 <= k < len / (STRIDE as nat),
    ensures
        k < ps.len() ==> slot_particle(encoded(ps, layout, len), layout, k) == ps[k],
        k >= ps.len() ==> slot_particle(encoded(ps, layout, len), layout, k) == (Particle {
            radius: 0,
            color: Color { r: 0, g: 0, b: 0 },
            velocity: Vec2 { x: 0, y: 0 },
            position: Vec2 { x: 0, y: 0 },
        }),
{
    lemma_group_in_bounds(k, len as int);
    lemma_group_offset(k, layout.radius as int);
    lemma_group_offset(k, layout.color as int);
    lemma_group_offset(k, layout.color + 1);
    lemma_group_offset(k, layout.color + 2);
    lemma_group_offset(k, layout.velocity as int);
    lemma_group_offset(k, layout.velocity + 1);
    lemma_group_offset(k, layout.position as int);
    lemma_group_offset(k, layout.position + 1);
}

proof fn lemma_active_prefix(ps: Seq<Particle>, layout: Layout, len: nat, n: nat)
    requires
        layout.wf(),
        len % (STRIDE as nat) == 0,
        ps.len() * STRIDE <= len,
        n <= len / (STRIDE as nat),
        forall|i: int| 0 <= i < ps.len() ==> !is_zero_scalar(#[trigger] ps[i].radius),
    ensures
        active_particles(encoded(ps, layout, len), layout, n) == ps.take(
            if n < ps.len() {
                n as int
            } else {
                ps.len() as int
            },
        ),
    decreases n,
{
    if n > 0 {
        let buf = encoded(ps, layout, len);
        lemma_active_prefix(ps, layout, len, (n - 1) as nat);
        lemma_encoded_slot(ps, layout, len, n - 1);
        lemma_group_in_bounds(n - 1, len as int);
        if n - 1 < ps.len() {
            assert(ps.take(n - 1).push(ps[n - 1]) =~= ps.take(n as int));
        }
    }
}

/// Writing a collection of active particles into a buffer and compacting
/// that buffer again gives the same collection back.
pub proof fn lemma_decode_encode(ps: Seq<Particle>, layout: Layout, len: nat)
    requires
        layout.wf(),
        len % (STRIDE as nat) == 0,
        ps.len() * STRIDE <= len,
        forall|i: int| 0 <= i < ps.len() ==> !is_zero_scalar(#[trigger] ps[i].radius),
    ensures
        active_particles(
            encoded(ps, layout, len),
            layout,
            slot_count(encoded(ps, layout, len)),
        ) == ps,
{
    assert(ps.len() <= len / (STRIDE as nat));
    lemma_active_prefix(ps, layout, len, len / (STRIDE as nat));
    assert(ps.take(ps.len() as int) =~= ps);
}

/// An empty slot whose position and velocity are zero comes back from a
/// compaction and write-back still empty, with zero position and velocity,
/// when it lies at or past the number of active particles: compaction moves
/// every active particle into an earlier slot.
pub proof fn lemma_empty_slot_round_trip(buf: Seq<u32>, layout: Layout, k: int)
    requires
        layout.wf(),
        buf.len() % (STRIDE as nat) == 0,
        0 <= k < slot_count(buf),
        !slot_is_active(buf, layout, k),
        active_particles(buf, layout, slot_count(buf)).len() <= k,
        is_zero_scalar(slot_particle(buf, layout, k).velocity.x),
        is_zero_scalar(slot_particle(buf, layout, k).velocity.y),
        is_zero_scalar(slot_particle(buf, layout, k).position.x),
        is_zero_scalar(slot_particle(buf, layout, k).position.y),
    ensures
        ({
            let out = encoded(
                active_particles(buf, layout, slot_count(buf)),
                layout,
                buf.len(),
            );
            &&& out.len() == buf.len()
            &&& !slot_is_active(out, layout, k)
            &&& is_zero_scalar(slot_particle(out, layout, k).velocity.x)
            &&& is_zero_scalar(slot_particle(out, layout, k).velocity.y)
            &&& is_zero_scalar(slot_particle(out, layout, k).position.x)
            &&& is_zero_scalar(slot_particle(out, layout, k).position.y)
        }),
{
    let ps = active_particles(buf, layout, slot_count(buf));
    lemma_active_particles_bounds(buf, layout, slot_count(buf));
    assert(ps.len() * STRIDE <= buf.len());
    lemma_encoded_slot(ps, layout, buf.len(), k);
}

} // verus!
