//! A small PCG-style generator and the random identifiers made from it.
use vstd::prelude::*;
use vstd::wrapping::u64_specs;

verus! {

/// The multiplier of the generator's linear congruential step.
pub const PCG_MULTIPLIER: u64 = 6364136223846793005;

/// The increment of the generator's linear congruential step.
pub const PCG_INCREMENT: u64 = 1442695040888963407;

/// The state that follows `s`: `s * PCG_MULTIPLIER + PCG_INCREMENT`, modulo 2^64.
pub open spec fn next_state(s: u64) -> u64 {
    u64_specs::wrapping_add(u64_specs::wrapping_mul(s, PCG_MULTIPLIER), PCG_INCREMENT)
}

/// The number drawn from state `s`: `((s >> 18) ^ s) >> 27`, rotated right by `s >> 59`.
pub open spec fn output(s: u64) -> u64 {
    let xs = ((s >> 18u64) ^ s) >> 27u64;
    let rot = (s >> 59u64) as u32;
    (xs >> rot) | u64_specs::wrapping_shl(xs, (64 - rot) as u32)
}

/// The state seeded from a clock reading of `nanos` nanoseconds: its low 64 bits times
/// `PCG_MULTIPLIER`, modulo 2^64, or 1 where that is 0.
pub open spec fn seed_state(nanos: u128) -> u64 {
    let s = u64_specs::wrapping_mul(nanos as u64, PCG_MULTIPLIER);
    if s == 0 {
        1
    } else {
        s
    }
}

/// A number below `max` drawn from state `s` (0 when `max` is 0), and the state after it.
pub open spec fn draw(s: u64, max: u64) -> (u64, u64) {
    if max == 0 {
        (0, s)
    } else {
        (output(s) % max, next_state(s))
    }
}

/// `k` numbers below `max` drawn one after another from state `s`.
pub open spec fn draws(s: u64, max: u64, k: nat) -> Seq<u64>
    decreases k,
{
    if k == 0 {
        seq![]
    } else {
        seq![draw(s, max).0] + draws(draw(s, max).1, max, (k - 1) as nat)
    }
}

/// The state after `k` draws below `max` from state `s`.
pub open spec fn state_after(s: u64, max: u64, k: nat) -> u64
    decreases k,
{
    if k == 0 {
        s
    } else {
        state_after(draw(s, max).1, max, (k - 1) as nat)
    }
}

/// A pseudo-random number generator.
pub struct Rng {
    state: u64,
}

impl View for Rng {
    type V = u64;

    closed spec fn view(&self) -> u64 {
        self.state
    }
}

#[verifier::external_type_specification]
#[verifier::external_body]
pub struct ExSystemTime(std::time::SystemTime);

/// `SystemTime::now`: the system clock. Nothing is claimed of the reading.
#[verifier::external_body]
fn clock_now() -> std::time::SystemTime {
    std::time::SystemTime::now()
}

/// `SystemTime::duration_since(UNIX_EPOCH)`: the time elapsed since 1970, or `None` where `t`
/// stands before 1970 (the call's `Err`). Nothing is claimed of the duration.
#[verifier::external_body]
fn since_epoch(t: &std::time::SystemTime) -> Option<std::time::Duration> {
    t.duration_since(std::time::UNIX_EPOCH).ok()
}

/// `Duration::as_nanos`: the whole nanoseconds of `d`. Nothing is claimed of the number.
pub assume_specification[ core::time::Duration::as_nanos ](d: &core::time::Duration) -> u128;

impl Rng {
    /// A generator seeded from the system clock; `None` where the clock stands before 1970.
    pub fn new() -> (r: Option<Self>)
        ensures
            r matches Some(g) ==> exists|nanos: u128| g@ == seed_state(nanos),
    {
        match since_epoch(&clock_now()) {
            Some(elapsed) => Some(Rng::from_nanos(elapsed.as_nanos())),
            None => None,
        }
    }

    /// A generator seeded from a clock reading of `nanos` nanoseconds.
    pub fn from_nanos(nanos: u128) -> (r: Self)
        ensures
            r@ == seed_state(nanos),
    {
        let seed = (nanos as u64).wrapping_mul(PCG_MULTIPLIER);
        Rng { state: if seed == 0 {
                1
            } else {
                seed
            } }
    }

    /// A generator whose state is `seed`, which must not be 0.
    pub fn new_seed(seed: u64) -> (r: Self)
        requires
            seed != 0,
        ensures
            r@ == seed,
    {
        Rng { state: seed }
    }

    /// The next number, and one step of the state.
    pub fn next_u64(&mut self) -> (r: u64)
        ensures
            r == output(old(self)@),
            final(self)@ == next_state(old(self)@),
    {
        let old_state = self.state;
        self.state = old_state.wrapping_mul(PCG_MULTIPLIER).wrapping_add(PCG_INCREMENT);
        let xor_shifted = ((old_state >> 18u64) ^ old_state) >> 27u64;
        assert((old_state >> 59u64) < 32) by (bit_vector);
        let rot = (old_state >> 59u64) as u32;
        (xor_shifted >> rot) | (xor_shifted.wrapping_shl(64 - rot))
    }

    /// A number below `max` (0 when `max` is 0, without a step).
    pub fn gen_range(&mut self, max: u64) -> (r: u64)
        ensures
            (r, final(self)@) == draw(old(self)@, max),
    {
        if max == 0 {
            return 0;
        }
        self.next_u64() % max
    }
}

/// The hexadecimal digits, lower case.
pub open spec fn hex_digits() -> Seq<char> {
    seq!['0', '1', '2', '3', '4', '5', '6', '7', '8', '9', 'a', 'b', 'c', 'd', 'e', 'f']
}

/// `v` (below 65536) as four lower-case hexadecimal digits, zero-padded (`{:04x}`).
pub open spec fn hex4(v: u64) -> Seq<char> {
    seq![
        hex_digits()[((v / 4096) % 16) as int],
        hex_digits()[((v / 256) % 16) as int],
        hex_digits()[((v / 16) % 16) as int],
        hex_digits()[(v % 16) as int],
    ]
}

/// The identifier made of eight numbers: `xxxxxxxx-xxxx-xxxx-xxxx-xxxxxxxxxxxx`.
pub open spec fn uuid_text(p: Seq<u64>) -> Seq<char> {
    hex4(p[0]) + hex4(p[1]) + seq!['-'] + hex4(p[2]) + seq!['-'] + hex4(p[3]) + seq!['-'] + hex4(
        p[4],
    ) + seq!['-'] + hex4(p[5]) + hex4(p[6]) + hex4(p[7])
}

/// The largest number a part of an identifier is drawn below: `u16::MAX`.
pub open spec fn part_bound() -> u64 {
    65535
}

fn push_hex4(out: &mut String, v: u64)
    requires
        v < 65536,
    ensures
        final(out)@ == old(out)@ + hex4(v),
{
    let table = ['0', '1', '2', '3', '4', '5', '6', '7', '8', '9', 'a', 'b', 'c', 'd', 'e', 'f'];
    assert(table@ =~= hex_digits());
    out.push(table[((v / 4096) % 16) as usize]);
    out.push(table[((v / 256) % 16) as usize]);
    out.push(table[((v / 16) % 16) as usize]);
    out.push(table[(v % 16) as usize]);
    assert(out@ =~= old(out)@ + hex4(v));
}

/// An identifier from eight numbers drawn from `rng`, each below `u16::MAX`.
pub fn uuid_from(rng: &mut Rng) -> (r: String)
    ensures
        r@ == uuid_text(draws(old(rng)@, part_bound(), 8)),
        final(rng)@ == state_after(old(rng)@, part_bound(), 8),
{
    let ghost start = rng@;
    let mut parts: Vec<u64> = Vec::new();
    let mut i: usize = 0;
    while i < 8
        invariant
            i <= 8,
            parts@.len() == i,
            draws(start, part_bound(), 8) == parts@ + draws(rng@, part_bound(), (8 - i) as nat),
            state_after(start, part_bound(), 8) == state_after(rng@, part_bound(), (8 - i) as nat),
            forall|j: int| 0 <= j < i ==> parts@[j] < 65535,
        decreases 8 - i,
    {
        let ghost before = rng@;
        let v = rng.gen_range(65535u64);
        proof {
            assert(draws(before, part_bound(), (8 - i) as nat) == seq![v] + draws(
                rng@,
                part_bound(),
                (8 - i - 1) as nat,
            ));
            assert(parts@.push(v) + draws(rng@, part_bound(), (8 - i - 1) as nat) =~= parts@ + (
            seq![v] + draws(rng@, part_bound(), (8 - i - 1) as nat)));
        }
        parts.push(v);
        i = i + 1;
    }
    assert(parts@ + Seq::<u64>::empty() =~= parts@);
    let mut out = String::new();
    push_hex4(&mut out, parts[0]);
    push_hex4(&mut out, parts[1]);
    out.push('-');
    push_hex4(&mut out, parts[2]);
    out.push('-');
    push_hex4(&mut out, parts[3]);
    out.push('-');
    push_hex4(&mut out, parts[4]);
    out.push('-');
    push_hex4(&mut out, parts[5]);
    push_hex4(&mut out, parts[6]);
    push_hex4(&mut out, parts[7]);
    assert(out@ =~= uuid_text(parts@));
    out
}

/// A random identifier `xxxxxxxx-xxxx-xxxx-xxxx-xxxxxxxxxxxx` from a generator seeded by the
/// clock; `None` where the clock stands before 1970.
pub fn gen_random_uuid() -> (r: Option<String>)
    ensures
        r matches Some(s) ==> exists|nanos: u128| s@ == uuid_text(
            draws(seed_state(nanos), part_bound(), 8),
        ),
{
    match Rng::new() {
        Some(mut rng) => Some(uuid_from(&mut rng)),
        None => None,
    }
}

/// A generator seeded from the clock never starts from state 0.
pub proof fn lemma_seed_state_nonzero(nanos: u128)
    ensures
        seed_state(nanos) != 0,
{
}

/// A number drawn below a positive `max` is below `max`.
pub proof fn lemma_draw_below(s: u64, max: u64)
    requires
        max > 0,
    ensures
        draw(s, max).0 < max,
{
}

/// An identifier is 36 characters: dashes at positions 8, 13, 18 and 23, lower-case hexadecimal
/// digits everywhere else.
pub proof fn lemma_uuid_shape(p: Seq<u64>)
    ensures
        uuid_text(p).len() == 36,
        forall|i: int|
            0 <= i < 36 ==> if i == 8 || i == 13 || i == 18 || i == 23 {
                #[trigger] uuid_text(p)[i] == '-'
            } else {
                hex_digits().contains(uuid_text(p)[i])
            },
{
    let t = uuid_text(p);
    assert forall|v: u64, j: int| 0 <= j < 4 implies hex_digits().contains(#[trigger] hex4(v)[j]) by {
        let d = if j == 0 {
            (v / 4096) % 16
        } else if j == 1 {
            (v / 256) % 16
        } else if j == 2 {
            (v / 16) % 16
        } else {
            v % 16
        };
        assert(hex4(v)[j] == hex_digits()[d as int]);
    }
    assert forall|i: int| 0 <= i < 36 implies if i == 8 || i == 13 || i == 18 || i == 23 {
        #[trigger] t[i] == '-'
    } else {
        hex_digits().contains(t[i])
    } by {
        if i < 4 {
            assert(t[i] == hex4(p[0])[i]);
        } else if i < 8 {
            assert(t[i] == hex4(p[1])[i - 4]);
        } else if i == 8 {
        } else if i < 13 {
            assert(t[i] == hex4(p[2])[i - 9]);
        } else if i == 13 {
        } else if i < 18 {
            assert(t[i] == hex4(p[3])[i - 14]);
        } else if i == 18 {
        } else if i < 23 {
            assert(t[i] == hex4(p[4])[i - 19]);
        } else if i == 23 {
        } else if i < 28 {
            assert(t[i] == hex4(p[5])[i - 24]);
        } else if i < 32 {
            assert(t[i] == hex4(p[6])[i - 28]);
        } else {
            assert(t[i] == hex4(p[7])[i - 32]);
        }
    }
}

} // verus!
