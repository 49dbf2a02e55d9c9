//! Configurations: one classical grid pattern carrying a complex
//! amplitude, together with the fingerprint machinery that the
//! interference resolver uses to detect equal patterns.

use vstd::prelude::*;
use crate::amplitude::{Amplitude, AmpView};
use crate::coords::{Coordinates, lex_lt, coord_in_bounds, coord_lt};

verus! {

/// The verified view of a configuration.
pub ghost struct ConfigView {
    pub amp: AmpView,
    pub cells: Seq<(Coordinates, bool)>,
}

/// One classical grid pattern with its amplitude. The boolean beside each
/// coordinate is bookkeeping carried through serialization; the simulation
/// itself only reads the coordinates.
pub struct Configuration {
    pub amplitude: Amplitude,
    pub living_cells: Vec<(Coordinates, bool)>,
}

impl View for Configuration {
    type V = ConfigView;

    open spec fn view(&self) -> ConfigView {
        ConfigView { amp: self.amplitude@, cells: self.living_cells@ }
    }
}

/// Whether some entry of `cells` has coordinate `c`.
pub open spec fn cells_contain(cells: Seq<(Coordinates, bool)>, c: Coordinates) -> bool {
    exists|i: int| 0 <= i < cells.len() && cells[i].0 == c
}

/// The set of live coordinates of a cell sequence.
pub open spec fn live_of(cells: Seq<(Coordinates, bool)>) -> Set<Coordinates> {
    Set::new(|c: Coordinates| cells_contain(cells, c))
}

/// No coordinate occurs twice.
pub open spec fn cells_distinct(cells: Seq<(Coordinates, bool)>) -> bool {
    forall|i: int, j: int| 0 <= i < j < cells.len() ==> cells[i].0 != cells[j].0
}

/// Every coordinate is within the magnitude `b`.
pub open spec fn cells_bounded(cells: Seq<(Coordinates, bool)>, b: int) -> bool {
    forall|i: int| 0 <= i < cells.len() ==> coord_in_bounds(#[trigger] cells[i].0, b)
}

/// The coordinates of a cell sequence, in order.
pub open spec fn keys_of(cells: Seq<(Coordinates, bool)>) -> Seq<Coordinates> {
    cells.map_values(|p: (Coordinates, bool)| p.0)
}

/// Exec test matching `cells_contain`.
pub fn contains_cell(cells: &Vec<(Coordinates, bool)>, c: &Coordinates) -> (r: bool)
    ensures
        r == cells_contain(cells@, *c),
{
    let mut i: usize = 0;
    while i < cells.len()
        invariant
            0 <= i <= cells.len(),
            forall|j: int| 0 <= j < i ==> cells@[j].0 != *c,
        decreases cells.len() - i,
    {
        if cells[i].0 == *c {
            return true;
        }
        i = i + 1;
    }
    false
}

/// Inserting into a strictly sorted coordinate sequence, keeping it sorted
/// and dropping the coordinate if it is already present.
pub open spec fn sorted_insert(s: Seq<Coordinates>, c: Coordinates) -> Seq<Coordinates>
    decreases s.len(),
{
    if s.len() == 0 {
        seq![c]
    } else if lex_lt(c, s[0]) {
        seq![c] + s
    } else if c == s[0] {
        s
    } else {
        seq![s[0]] + sorted_insert(s.drop_first(), c)
    }
}

/// Sorting a coordinate sequence by repeated insertion; duplicates
/// collapse, so the result lists the set of coordinates in strictly
/// increasing order.
pub open spec fn sort_coords(s: Seq<Coordinates>) -> Seq<Coordinates>
    decreases s.len(),
{
    if s.len() == 0 {
        Seq::empty()
    } else {
        sorted_insert(sort_coords(s.drop_last()), s.last())
    }
}

/// Strictly increasing in the lexicographic order.
pub open spec fn strictly_sorted(s: Seq<Coordinates>) -> bool {
    forall|i: int, j: int| 0 <= i < j < s.len() ==> lex_lt(s[i], s[j])
}

/// `sorted_insert` keeps a strictly sorted sequence sorted and adjoins
/// exactly the new coordinate to its members.
pub proof fn lemma_sorted_insert_props(s: Seq<Coordinates>, c: Coordinates)
    requires
        strictly_sorted(s),
    ensures
        strictly_sorted(sorted_insert(s, c)),
        forall|x: Coordinates| #[trigger] sorted_insert(s, c).contains(x) ==> (s.contains(x) || x
            == c),
        forall|x: Coordinates| #[trigger] s.contains(x) ==> sorted_insert(s, c).contains(x),
        sorted_insert(s, c).contains(c),
    decreases s.len(),
{
    let r = sorted_insert(s, c);
    if s.len() == 0 {
        assert(r == seq![c]);
        assert(r.contains(c)) by { assert(r[0] == c); }
        assert forall|x: Coordinates| #[trigger] r.contains(x) implies (s.contains(x) || x == c) by {
            let i = choose|i: int| 0 <= i < r.len() && r[i] == x;
            assert(i == 0);
        }
    } else if lex_lt(c, s[0]) {
        assert(r == seq![c] + s);
        assert forall|i: int, j: int| 0 <= i < j < r.len() implies lex_lt(r[i], r[j]) by {
            if i == 0 {
                assert(r[j] == s[j - 1]);
                if j == 1 {
                    assert(lex_lt(c, s[0]));
                } else {
                    assert(lex_lt(s[0], s[j - 1]));
                }
            } else {
                assert(r[i] == s[i - 1] && r[j] == s[j - 1]);
            }
        }
        assert forall|x: Coordinates| #[trigger] r.contains(x) implies (s.contains(x) || x == c) by {
            let i = choose|i: int| 0 <= i < r.len() && r[i] == x;
            if i > 0 {
                assert(s[i - 1] == x);
            }
        }
        assert(r.contains(c)) by { assert(r[0] == c); }
        assert forall|x: Coordinates| #[trigger] s.contains(x) implies r.contains(x) by {
            let i = choose|i: int| 0 <= i < s.len() && s[i] == x;
            assert(r[i + 1] == x);
        }
    } else if c == s[0] {
        assert(r == s);
        assert(r.contains(c)) by { assert(r[0] == c); }
        assert(forall|x: Coordinates| #[trigger] s.contains(x) ==> r.contains(x));
    } else {
        let tail = s.drop_first();
        assert(strictly_sorted(tail)) by {
            assert(forall|i: int, j: int| 0 <= i < j < tail.len() ==> tail[i] == s[i + 1] && tail[j] == s[j + 1]);
        }
        lemma_sorted_insert_props(tail, c);
        let rt = sorted_insert(tail, c);
        assert(r == seq![s[0]] + rt);
        // s[0] is below everything in rt: below each tail element and below c.
        assert(lex_lt(s[0], c));
        assert forall|k: int| 0 <= k < rt.len() implies lex_lt(s[0], rt[k]) by {
            assert(rt.contains(rt[k]));
            if rt[k] == c {
            } else {
                assert(tail.contains(rt[k]));
                let i = choose|i: int| 0 <= i < tail.len() && tail[i] == rt[k];
                assert(tail[i] == s[i + 1]);
                assert(lex_lt(s[0], s[i + 1]));
            }
        }
        assert forall|i: int, j: int| 0 <= i < j < r.len() implies lex_lt(r[i], r[j]) by {
            if i == 0 {
                assert(r[j] == rt[j - 1]);
            } else {
                assert(r[i] == rt[i - 1] && r[j] == rt[j - 1]);
            }
        }
        assert forall|x: Coordinates| #[trigger] r.contains(x) implies (s.contains(x) || x == c) by {
            let i = choose|i: int| 0 <= i < r.len() && r[i] == x;
            if i == 0 {
                assert(s[0] == x);
                assert(s.contains(x)) by { assert(s[0] == x); }
            } else {
                assert(rt.contains(r[i])) by { assert(rt[i - 1] == r[i]); }
                if tail.contains(x) {
                    let k = choose|k: int| 0 <= k < tail.len() && tail[k] == x;
                    assert(s[k + 1] == x);
                    assert(s.contains(x)) by { assert(s[k + 1] == x); }
                }
            }
        }
        assert(r.contains(c)) by {
            assert(rt.contains(c));
            let k = choose|k: int| 0 <= k < rt.len() && rt[k] == c;
            assert(r[k + 1] == c);
        }
        assert forall|x: Coordinates| #[trigger] s.contains(x) implies r.contains(x) by {
            let i = choose|i: int| 0 <= i < s.len() && s[i] == x;
            if i == 0 {
                assert(r[0] == x);
            } else {
                assert(tail[i - 1] == x);
                assert(tail.contains(tail[i - 1]));
                assert(rt.contains(x));
                let k = choose|k: int| 0 <= k < rt.len() && rt[k] == x;
                assert(r[k + 1] == x);
            }
        }
    }
}

/// The sorted form of a sequence is strictly sorted and has the same
/// members.
pub proof fn lemma_sort_coords_props(s: Seq<Coordinates>)
    ensures
        strictly_sorted(sort_coords(s)),
        forall|x: Coordinates| #[trigger] sort_coords(s).contains(x) ==> s.contains(x),
        forall|x: Coordinates| #[trigger] s.contains(x) ==> sort_coords(s).contains(x),
    decreases s.len(),
{
    if s.len() == 0 {
    } else {
        let front = s.drop_last();
        lemma_sort_coords_props(front);
        lemma_sorted_insert_props(sort_coords(front), s.last());
        let r = sort_coords(s);
        assert(r == sorted_insert(sort_coords(front), s.last()));
        assert forall|x: Coordinates| #[trigger] r.contains(x) implies s.contains(x) by {
            if sort_coords(front).contains(x) {
                assert(front.contains(x));
                let i = choose|i: int| 0 <= i < front.len() && front[i] == x;
                assert(s[i] == x);
                assert(s.contains(x)) by { assert(s[i] == x); }
            } else {
                assert(x == s.last());
                assert(s.contains(x)) by { assert(s[s.len() - 1] == x); }
            }
        }
        assert forall|x: Coordinates| #[trigger] s.contains(x) implies r.contains(x) by {
            let i = choose|i: int| 0 <= i < s.len() && s[i] == x;
            if i < s.len() - 1 {
                assert(front[i] == x);
                assert(front.contains(x)) by { assert(front[i] == x); }
                assert(sort_coords(front).contains(x));
            } else {
                assert(x == s.last());
            }
        }
    }
}

/// Two strictly sorted sequences with the same members are equal: the
/// sorted live-cell list is a canonical form of the live-cell set.
pub proof fn lemma_sorted_unique(a: Seq<Coordinates>, b: Seq<Coordinates>)
    requires
        strictly_sorted(a),
        strictly_sorted(b),
        forall|x: Coordinates| a.contains(x) <==> b.contains(x),
    ensures
        a == b,
    decreases a.len(),
{
    if a.len() == 0 {
        if b.len() > 0 {
            assert(b.contains(b[0]));
            assert(false);
        }
        assert(a =~= b);
    } else {
        assert(a.contains(a[0]));
        assert(b.contains(a[0]));
        let i = choose|i: int| 0 <= i < b.len() && b[i] == a[0];
        assert(b.contains(b[0]));
        assert(a.contains(b[0]));
        let j = choose|j: int| 0 <= j < a.len() && a[j] == b[0];
        // Heads are both minimal, so they agree.
        assert(a[0] == b[0]) by {
            if i > 0 {
                assert(lex_lt(b[0], b[i]));
                if j > 0 {
                    assert(lex_lt(a[0], a[j]));
                }
            }
        }
        let at = a.drop_first();
        let bt = b.drop_first();
        assert(strictly_sorted(at)) by {
            assert(forall|p: int, q: int| 0 <= p < q < at.len() ==> at[p] == a[p + 1] && at[q] == a[q + 1]);
        }
        assert(strictly_sorted(bt)) by {
            assert(forall|p: int, q: int| 0 <= p < q < bt.len() ==> bt[p] == b[p + 1] && bt[q] == b[q + 1]);
        }
        assert forall|x: Coordinates| at.contains(x) implies bt.contains(x) by {
            let p = choose|p: int| 0 <= p < at.len() && at[p] == x;
            assert(a[p + 1] == x);
            assert(a.contains(x)) by { assert(a[p + 1] == x); }
            assert(lex_lt(a[0], x));
            assert(b.contains(x));
            let q = choose|q: int| 0 <= q < b.len() && b[q] == x;
            assert(q > 0) by {
                if q == 0 {
                    assert(x == b[0]);
                }
            }
            assert(bt[q - 1] == x);
        }
        assert forall|x: Coordinates| bt.contains(x) implies at.contains(x) by {
            let p = choose|p: int| 0 <= p < bt.len() && bt[p] == x;
            assert(b[p + 1] == x);
            assert(b.contains(x)) by { assert(b[p + 1] == x); }
            assert(lex_lt(b[0], x));
            assert(a.contains(x));
            let q = choose|q: int| 0 <= q < a.len() && a[q] == x;
            assert(q > 0) by {
                if q == 0 {
                    assert(x == a[0]);
                }
            }
            assert(at[q - 1] == x);
        }
        lemma_sorted_unique(at, bt);
        assert(a =~= b) by {
            assert(forall|k: int| 1 <= k < a.len() ==> a[k] == at[k - 1] && b[k] == bt[k - 1]);
        }
    }
}

/// Exec insertion matching `sorted_insert`.
pub fn insert_coord_sorted(v: &mut Vec<Coordinates>, c: Coordinates)
    requires
        strictly_sorted(old(v)@),
    ensures
        final(v)@ == sorted_insert(old(v)@, c),
        strictly_sorted(final(v)@),
{
    let ghost s = v@;
    let mut i: usize = 0;
    while i < v.len() && coord_lt(&v[i], &c)
        invariant
            0 <= i <= v.len(),
            v@ == s,
            forall|j: int| 0 <= j < i ==> lex_lt(s[j], c),
        decreases v.len() - i,
    {
        i = i + 1;
    }
    proof {
        lemma_sorted_insert_at(s, c, i as int);
    }
    if i < v.len() && v[i] == c {
        // already present
    } else {
        v.insert(i, c);
        proof {
            assert(v@ =~= s.take(i as int) + seq![c] + s.skip(i as int));
        }
    }
    proof {
        lemma_sorted_insert_props(s, c);
    }
}

/// Where the scan of `insert_coord_sorted` stops, the recursive
/// `sorted_insert` either leaves the sequence alone or splices the new
/// coordinate in at that position.
pub proof fn lemma_sorted_insert_at(s: Seq<Coordinates>, c: Coordinates, i: int)
    requires
        0 <= i <= s.len(),
        forall|j: int| 0 <= j < i ==> lex_lt(s[j], c),
        i < s.len() ==> !lex_lt(s[i], c),
    ensures
        sorted_insert(s, c) == if i < s.len() && s[i] == c {
            s
        } else {
            s.take(i) + seq![c] + s.skip(i)
        },
    decreases s.len(),
{
    if s.len() == 0 {
        assert(sorted_insert(s, c) =~= s.take(0) + seq![c] + s.skip(0));
    } else if i == 0 {
        if s[0] == c {
        } else {
            assert(lex_lt(c, s[0]));
            assert(seq![c] + s =~= s.take(0) + seq![c] + s.skip(0));
        }
    } else {
        assert(lex_lt(s[0], c));
        assert(!lex_lt(c, s[0]) && c != s[0]);
        let tail = s.drop_first();
        assert(forall|j: int| 0 <= j < i - 1 ==> tail[j] == s[j + 1] && lex_lt(s[j + 1], c));
        assert(i - 1 < tail.len() ==> tail[i - 1] == s[i]);
        lemma_sorted_insert_at(tail, c, i - 1);
        if i < s.len() && s[i] == c {
            assert(tail[i - 1] == c);
            assert(sorted_insert(s, c) == seq![s[0]] + sorted_insert(tail, c));
            assert(seq![s[0]] + tail =~= s);
        } else {
            assert(sorted_insert(s, c) == seq![s[0]] + (tail.take(i - 1) + seq![c] + tail.skip(i - 1)));
            assert(seq![s[0]] + (tail.take(i - 1) + seq![c] + tail.skip(i - 1)) =~= s.take(i) + seq![c] + s.skip(i));
        }
    }
}

/// The sorted list of live coordinates of a cell sequence.
pub fn sorted_keys(cells: &Vec<(Coordinates, bool)>) -> (r: Vec<Coordinates>)
    ensures
        r@ == sort_coords(keys_of(cells@)),
        strictly_sorted(r@),
{
    let mut v: Vec<Coordinates> = Vec::new();
    let mut i: usize = 0;
    proof {
        assert(keys_of(cells@.take(0)) =~= Seq::<Coordinates>::empty());
    }
    while i < cells.len()
        invariant
            0 <= i <= cells.len(),
            v@ == sort_coords(keys_of(cells@.take(i as int))),
            strictly_sorted(v@),
        decreases cells.len() - i,
    {
        let c = cells[i].0;
        insert_coord_sorted(&mut v, c);
        proof {
            let prefix = keys_of(cells@.take(i as int));
            let next = keys_of(cells@.take(i as int + 1));
            assert(next.drop_last() =~= prefix);
            assert(next.last() == c);
            assert(v@ == sorted_insert(sort_coords(prefix), c));
        }
        i = i + 1;
    }
    proof {
        assert(cells@.take(cells@.len() as int) =~= cells@);
    }
    v
}

/// Big-endian bytes of a value in `[0, 2^32)`.
pub open spec fn byte_split(u: int) -> Seq<u8> {
    seq![
        (u / 0x1000000) as u8,
        ((u / 0x10000) % 256) as u8,
        ((u / 256) % 256) as u8,
        (u % 256) as u8,
    ]
}

/// The two's-complement value of a signed 32-bit coordinate.
pub open spec fn unsigned32(v: int) -> int {
    if v >= 0 {
        v
    } else {
        v + 0x100000000
    }
}

/// The eight bytes encoding one coordinate: x then y, each big-endian.
pub open spec fn coord_bytes(c: Coordinates) -> Seq<u8> {
    byte_split(unsigned32(c.x as int)) + byte_split(unsigned32(c.y as int))
}

/// The bytes encoding a coordinate list, in order.
pub open spec fn coords_bytes(s: Seq<Coordinates>) -> Seq<u8>
    decreases s.len(),
{
    if s.len() == 0 {
        Seq::empty()
    } else {
        coords_bytes(s.drop_last()) + coord_bytes(s.last())
    }
}

/// Appends the big-endian bytes of one coordinate value.
fn push_val_bytes(bytes: &mut Vec<u8>, v: i32)
    ensures
        final(bytes)@ == old(bytes)@ + byte_split(unsigned32(v as int)),
{
    let u: u32 = if v >= 0 {
        v as u32
    } else {
        ((v as i64) + 4294967296) as u32
    };
    assert(u as int == unsigned32(v as int));
    bytes.push((u / 0x1000000) as u8);
    bytes.push(((u / 0x10000) % 256) as u8);
    bytes.push(((u / 256) % 256) as u8);
    bytes.push((u % 256) as u8);
    proof {
        assert(final(bytes)@ =~= old(bytes)@ + byte_split(unsigned32(v as int)));
    }
}

/// The byte encoding of a sorted coordinate list.
fn coords_to_bytes(s: &Vec<Coordinates>) -> (r: Vec<u8>)
    ensures
        r@ == coords_bytes(s@),
{
    let mut bytes: Vec<u8> = Vec::new();
    let mut i: usize = 0;
    proof {
        assert(coords_bytes(s@.take(0)) =~= Seq::<u8>::empty());
    }
    while i < s.len()
        invariant
            0 <= i <= s.len(),
            bytes@ == coords_bytes(s@.take(i as int)),
        decreases s.len() - i,
    {
        let c = s[i];
        push_val_bytes(&mut bytes, c.x);
        push_val_bytes(&mut bytes, c.y);
        proof {
            let prefix = s@.take(i as int);
            let next = s@.take(i as int + 1);
            assert(next.drop_last() =~= prefix);
            assert(next.last() == c);
            assert(bytes@ =~= coords_bytes(prefix) + coord_bytes(c));
        }
        i = i + 1;
    }
    proof {
        assert(s@.take(s@.len() as int) =~= s@);
    }
    bytes
}

/// The 32-byte digest that SHA-256 assigns to the given bytes; it depends
/// on the bytes alone.
pub uninterp spec fn digest_of(bytes: Seq<u8>) -> Seq<u8>;

/// Relies on sha2's `Sha256::digest`: a 32-byte digest that is a function
/// of the input bytes alone.
#[verifier::external_body]
fn sha256_digest(bytes: &Vec<u8>) -> (r: Vec<u8>)
    ensures
        r@ == digest_of(bytes@),
        r@.len() == 32,
{
    <sha2::Sha256 as sha2::Digest>::digest(bytes.as_slice()).to_vec()
}

/// The fingerprint of a cell sequence at the spec level: the SHA-256
/// digest of the big-endian encoding of its sorted live coordinates.
pub open spec fn fingerprint_of(cells: Seq<(Coordinates, bool)>) -> Seq<u8> {
    digest_of(coords_bytes(sort_coords(keys_of(cells))))
}

/// The fingerprint of a configuration's live-cell set: equal live sets
/// give equal fingerprints, and the interference resolver verifies the
/// sorted lists on equal fingerprints before merging.
pub fn fingerprint(cells: &Vec<(Coordinates, bool)>) -> (r: Vec<u8>)
    ensures
        r@ == fingerprint_of(cells@),
        r@.len() == 32,
{
    let sorted = sorted_keys(cells);
    let bytes = coords_to_bytes(&sorted);
    sha256_digest(&bytes)
}

/// Exec equality of byte vectors.
pub fn bytes_eq(a: &Vec<u8>, b: &Vec<u8>) -> (r: bool)
    ensures
        r == (a@ == b@),
{
    if a.len() != b.len() {
        assert(a@ != b@);
        return false;
    }
    let mut i: usize = 0;
    while i < a.len()
        invariant
            0 <= i <= a.len(),
            a@.len() == b@.len(),
            forall|j: int| 0 <= j < i ==> a@[j] == b@[j],
        decreases a.len() - i,
    {
        if a[i] != b[i] {
            assert(a@ != b@);
            return false;
        }
        i = i + 1;
    }
    proof {
        assert(a@ =~= b@);
    }
    true
}

/// Exec equality of coordinate vectors.
pub fn coords_eq(a: &Vec<Coordinates>, b: &Vec<Coordinates>) -> (r: bool)
    ensures
        r == (a@ == b@),
{
    if a.len() != b.len() {
        assert(a@ != b@);
        return false;
    }
    let mut i: usize = 0;
    while i < a.len()
        invariant
            0 <= i <= a.len(),
            a@.len() == b@.len(),
            forall|j: int| 0 <= j < i ==> a@[j] == b@[j],
        decreases a.len() - i,
    {
        if !(a[i] == b[i]) {
            assert(a@ != b@);
            return false;
        }
        i = i + 1;
    }
    proof {
        assert(a@ =~= b@);
    }
    true
}

/// Equal live sets have equal fingerprints; the sorted lists agree exactly
/// when the live sets agree.
pub proof fn lemma_fingerprint_complete(a: Seq<(Coordinates, bool)>, b: Seq<(Coordinates, bool)>)
    requires
        live_of(a) == live_of(b),
    ensures
        sort_coords(keys_of(a)) == sort_coords(keys_of(b)),
        fingerprint_of(a) == fingerprint_of(b),
{
    lemma_sort_coords_props(keys_of(a));
    lemma_sort_coords_props(keys_of(b));
    assert forall|x: Coordinates| sort_coords(keys_of(a)).contains(x) implies sort_coords(
        keys_of(b),
    ).contains(x) by {
        assert(keys_of(a).contains(x));
        let i = choose|i: int| 0 <= i < keys_of(a).len() && keys_of(a)[i] == x;
        assert(a[i].0 == x);
        assert(cells_contain(a, x));
        assert(live_of(a).contains(x));
        assert(live_of(b).contains(x));
        let j = choose|j: int| 0 <= j < b.len() && b[j].0 == x;
        assert(keys_of(b)[j] == x);
        assert(keys_of(b).contains(x));
    }
    assert forall|x: Coordinates| sort_coords(keys_of(b)).contains(x) implies sort_coords(
        keys_of(a),
    ).contains(x) by {
        assert(keys_of(b).contains(x));
        let i = choose|i: int| 0 <= i < keys_of(b).len() && keys_of(b)[i] == x;
        assert(b[i].0 == x);
        assert(cells_contain(b, x));
        assert(live_of(b).contains(x));
        assert(live_of(a).contains(x));
        let j = choose|j: int| 0 <= j < a.len() && a[j].0 == x;
        assert(keys_of(a)[j] == x);
        assert(keys_of(a).contains(x));
    }
    lemma_sorted_unique(sort_coords(keys_of(a)), sort_coords(keys_of(b)));
}

/// Equal sorted live lists mean equal live sets.
pub proof fn lemma_sorted_eq_live_eq(a: Seq<(Coordinates, bool)>, b: Seq<(Coordinates, bool)>)
    requires
        sort_coords(keys_of(a)) == sort_coords(keys_of(b)),
    ensures
        live_of(a) == live_of(b),
{
    lemma_sort_coords_props(keys_of(a));
    lemma_sort_coords_props(keys_of(b));
    assert forall|x: Coordinates| #[trigger] live_of(a).contains(x) implies live_of(b).contains(
        x,
    ) by {
        let i = choose|i: int| 0 <= i < a.len() && a[i].0 == x;
        assert(keys_of(a)[i] == x);
        assert(keys_of(a).contains(x));
        assert(sort_coords(keys_of(a)).contains(x));
        assert(keys_of(b).contains(x));
        let j = choose|j: int| 0 <= j < keys_of(b).len() && keys_of(b)[j] == x;
        assert(b[j].0 == x);
        assert(cells_contain(b, x));
    }
    assert forall|x: Coordinates| #[trigger] live_of(b).contains(x) implies live_of(a).contains(
        x,
    ) by {
        let i = choose|i: int| 0 <= i < b.len() && b[i].0 == x;
        assert(keys_of(b)[i] == x);
        assert(keys_of(b).contains(x));
        assert(sort_coords(keys_of(b)).contains(x));
        assert(keys_of(a).contains(x));
        let j = choose|j: int| 0 <= j < keys_of(a).len() && keys_of(a)[j] == x;
        assert(a[j].0 == x);
        assert(cells_contain(a, x));
    }
    assert(live_of(a) =~= live_of(b));
}

} // verus!
