//! The topology builder: partitions the sorted member list into
//! fixed-size contiguous groups, designates the first member of each
//! group as its relay, and computes this node's neighbour set.
//!
//! A node identity is a string token carrying a numeric suffix (for
//! example `n12`); members are ordered by that suffix so that every node
//! derives the same partition independently. A relay's neighbours are the
//! other members of its own group plus every other group's relay; a
//! follower's only neighbour is its group's relay.

use vstd::prelude::*;

verus! {

/// The UTF-8 bytes of a node identity.
pub open spec fn id_bytes(s: Seq<char>) -> Seq<u8> {
    vstd::utf8::encode_utf8(s)
}

/// Whether a byte is an ASCII decimal digit.
pub open spec fn is_digit_byte(b: u8) -> bool {
    48 <= b <= 57
}

/// The number denoted by a sequence of ASCII digit bytes, most
/// significant first.
pub open spec fn digits_val(s: Seq<u8>) -> nat
    decreases s.len(),
{
    if s.len() == 0 {
        0
    } else {
        digits_val(s.drop_last()) * 10 + (s.last() - 48) as nat
    }
}

/// A well-formed node identity: one leading byte followed by at least one
/// decimal digit, as in `n7`.
pub open spec fn valid_id_bytes(b: Seq<u8>) -> bool {
    &&& b.len() >= 2
    &&& forall|i: int| 1 <= i < b.len() ==> is_digit_byte(#[trigger] b[i])
}

/// The numeric suffix embedded in a node identity's bytes.
pub open spec fn id_num(b: Seq<u8>) -> nat {
    digits_val(b.subrange(1, b.len() as int))
}

/// A node identity the topology builder accepts: well-formed, with a
/// suffix that fits the machine's integers.
pub open spec fn valid_node_id(s: Seq<char>) -> bool {
    &&& valid_id_bytes(id_bytes(s))
    &&& id_num(id_bytes(s)) <= u64::MAX
}

/// The ordering key of a node identity: its numeric suffix.
pub open spec fn node_key(s: Seq<char>) -> nat {
    id_num(id_bytes(s))
}

/// Appending digits to a numeral never decreases its value.
proof fn lemma_digits_val_prefix(s: Seq<u8>, n: int)
    requires
        0 <= n <= s.len(),
    ensures
        digits_val(s) >= digits_val(s.take(n)),
    decreases s.len() - n,
{
    if n == s.len() {
        assert(s.take(n) == s);
    } else {
        lemma_digits_val_prefix(s, n + 1);
        assert(s.take(n + 1).drop_last() == s.take(n));
        assert(digits_val(s.take(n + 1)) >= digits_val(s.take(n)));
    }
}

/// Parses the numeric suffix of a node identity, as in `n7`.
///
/// Returns the suffix exactly when the identity is well formed and the
/// suffix fits in a `u64`.
pub fn parse_node_number(s: &str) -> (r: Option<u64>)
    ensures
        r is Some <==> valid_node_id(s@),
        r matches Some(n) ==> n == node_key(s@),
{
    let bytes = s.as_bytes();
    proof {
        assert(bytes@ == id_bytes(s@));
    }
    if bytes.len() < 2 {
        return None;
    }
    let ghost suffix = bytes@.subrange(1, bytes@.len() as int);
    let mut value: u64 = 0;
    let mut i: usize = 1;
    while i < bytes.len()
        invariant
            1 <= i <= bytes@.len(),
            2 <= bytes@.len(),
            bytes@ == id_bytes(s@),
            suffix == bytes@.subrange(1, bytes@.len() as int),
            forall|j: int| 1 <= j < i ==> is_digit_byte(#[trigger] bytes@[j]),
            value == digits_val(suffix.take(i - 1)),
        decreases bytes@.len() - i,
    {
        let b = bytes[i];
        if b < 48 || b > 57 {
            return None;
        }
        let d = b - 48;
        proof {
            assert(suffix.take(i as int).drop_last() == suffix.take(i - 1));
            assert(suffix.take(i as int).last() == bytes@[i as int]);
        }
        if value > (u64::MAX - d as u64) / 10 {
            proof {
                lemma_digits_val_prefix(suffix, i as int);
                assert(digits_val(suffix.take(i as int)) == value * 10 + d);
                assert(value * 10 + d > u64::MAX) by (nonlinear_arith)
                    requires
                        value > (u64::MAX - d as u64) / 10,
                        0 <= d <= 9,
                ;
            }
            return None;
        }
        value = value * 10 + d as u64;
        i = i + 1;
    }
    proof {
        assert(suffix.take(suffix.len() as int) == suffix);
        assert forall|j: int| 1 <= j < bytes@.len() implies
            is_digit_byte(#[trigger] bytes@[j]) by {}
    }
    Some(value)
}

/// Member lists are ordered by the numeric suffix of the identities.
pub open spec fn sorted_by_key(v: Seq<String>) -> bool {
    forall|i: int, j: int| 0 <= i < j < v.len() ==> node_key(v[i]@) <= node_key(v[j]@)
}

/// Where a new member belongs in an ordered list: before the first member
/// with a strictly larger suffix.
pub open spec fn insert_pos(v: Seq<String>, x: String) -> int
    decreases v.len(),
{
    if v.len() == 0 {
        0
    } else if node_key(x@) < node_key(v[0]@) {
        0
    } else {
        1 + insert_pos(v.drop_first(), x)
    }
}

/// An ordered list with one more member, at its place.
pub open spec fn spec_insert_by_key(v: Seq<String>, x: String) -> Seq<String>
    decreases v.len(),
{
    if v.len() == 0 {
        seq![x]
    } else if node_key(x@) < node_key(v[0]@) {
        seq![x] + v
    } else {
        seq![v[0]] + spec_insert_by_key(v.drop_first(), x)
    }
}

/// The member list ordered by numeric suffix, processing members from the
/// front.
pub open spec fn spec_sort_by_key(v: Seq<String>) -> Seq<String>
    decreases v.len(),
{
    if v.len() == 0 {
        Seq::empty()
    } else {
        spec_insert_by_key(spec_sort_by_key(v.drop_first()), v[0])
    }
}

/// `spec_insert_by_key` places `x` exactly at `insert_pos`: after every
/// member whose suffix is not larger, before the rest.
pub proof fn lemma_insert_by_key_at(v: Seq<String>, x: String)
    ensures
        0 <= insert_pos(v, x) <= v.len(),
        spec_insert_by_key(v, x) == v.insert(insert_pos(v, x), x),
        forall|i: int| 0 <= i < insert_pos(v, x) ==> node_key(v[i]@) <= node_key(x@),
        insert_pos(v, x) < v.len() ==> node_key(x@) < node_key(v[insert_pos(v, x)]@),
    decreases v.len(),
{
    if v.len() == 0 {
        assert(spec_insert_by_key(v, x) =~= v.insert(0, x));
    } else if node_key(x@) < node_key(v[0]@) {
        assert(spec_insert_by_key(v, x) =~= v.insert(0, x));
    } else {
        lemma_insert_by_key_at(v.drop_first(), x);
        let p = insert_pos(v.drop_first(), x);
        assert(spec_insert_by_key(v, x) =~= v.insert(1 + p, x)) by {
            assert(v.drop_first().insert(p, x) =~= v.insert(1 + p, x).drop_first());
        }
        assert forall|i: int| 0 <= i < 1 + p implies node_key(v[i]@) <= node_key(x@) by {
            if i > 0 {
                assert(node_key(v.drop_first()[i - 1]@) <= node_key(x@));
            }
        }
    }
}

/// Inserting keeps the list ordered.
pub proof fn lemma_insert_by_key_sorted(v: Seq<String>, x: String)
    requires
        sorted_by_key(v),
    ensures
        sorted_by_key(spec_insert_by_key(v, x)),
{
    lemma_insert_by_key_at(v, x);
    let p = insert_pos(v, x);
    let w = v.insert(p, x);
    assert forall|i: int, j: int| 0 <= i < j < w.len() implies
        node_key(w[i]@) <= node_key(w[j]@) by {
        if i < p && j == p {
        } else if i == p && j > p {
            assert(node_key(v[p]@) <= node_key(v[j - 1]@));
        } else if i < p && j > p {
            assert(node_key(v[i]@) <= node_key(v[j - 1]@));
        }
    }
}

/// Inserting adds exactly the one member.
pub proof fn lemma_insert_by_key_multiset(v: Seq<String>, x: String)
    ensures
        spec_insert_by_key(v, x).to_multiset() == v.to_multiset().insert(x),
        spec_insert_by_key(v, x).len() == v.len() + 1,
{
    lemma_insert_by_key_at(v, x);
    broadcast use vstd::seq_lib::to_multiset_insert;

}

/// Ordering the member list keeps exactly its members.
pub proof fn lemma_sort_by_key_multiset(v: Seq<String>)
    ensures
        spec_sort_by_key(v).to_multiset() == v.to_multiset(),
        spec_sort_by_key(v).len() == v.len(),
    decreases v.len(),
{
    broadcast use vstd::seq_lib::group_to_multiset_ensures;

    if v.len() > 0 {
        lemma_sort_by_key_multiset(v.drop_first());
        lemma_insert_by_key_multiset(spec_sort_by_key(v.drop_first()), v[0]);
        assert(v.drop_first().push(v[0]).to_multiset() == v.drop_first().to_multiset().insert(
            v[0],
        ));
        assert(v.drop_first().push(v[0]).to_multiset() =~= v.to_multiset()) by {
            assert(v.drop_first().push(v[0]).to_multiset() == v.drop_first().to_multiset().insert(
                v[0],
            ));
            assert(v =~= seq![v[0]] + v.drop_first());
            assert(v.to_multiset() == v.drop_first().to_multiset().insert(v[0])) by {
                assert(v.drop_first() =~= v.drop_first());
                vstd::seq_lib::lemma_seq_union_to_multiset_commutative(seq![v[0]], v.drop_first());
                assert((seq![v[0]] + v.drop_first()).to_multiset() == (v.drop_first() + seq![
                    v[0],
                ]).to_multiset());
                assert(v.drop_first() + seq![v[0]] =~= v.drop_first().push(v[0]));
            }
        }
    }
}

/// Ordering the member list orders it.
pub proof fn lemma_sort_by_key_sorted(v: Seq<String>)
    ensures
        sorted_by_key(spec_sort_by_key(v)),
    decreases v.len(),
{
    if v.len() > 0 {
        lemma_sort_by_key_sorted(v.drop_first());
        lemma_insert_by_key_sorted(spec_sort_by_key(v.drop_first()), v[0]);
    }
}

/// The ordered list holds a value exactly when the original does.
pub proof fn lemma_sort_by_key_contains(v: Seq<String>, x: String)
    ensures
        v.contains(x) <==> spec_sort_by_key(v).contains(x),
{
    broadcast use vstd::seq_lib::to_multiset_contains;

    lemma_sort_by_key_multiset(v);
    assert(v.contains(x) <==> v.to_multiset().count(x) > 0);
    assert(spec_sort_by_key(v).contains(x) <==> spec_sort_by_key(v).to_multiset().count(x) > 0);
}

/// The ordered list has a member with a given identity exactly when the
/// original does.
pub proof fn lemma_sort_by_key_has_id(v: Seq<String>, id: Seq<char>)
    ensures
        has_id(spec_sort_by_key(v), id) == has_id(v, id),
{
    let s = spec_sort_by_key(v);
    if has_id(v, id) {
        let i = choose|i: int| 0 <= i < v.len() && v[i]@ == id;
        lemma_sort_by_key_contains(v, v[i]);
        assert(v.contains(v[i]));
        let j = choose|j: int| 0 <= j < s.len() && s[j] == v[i];
        assert(s[j]@ == id);
    }
    if has_id(s, id) {
        let i = choose|i: int| 0 <= i < s.len() && s[i]@ == id;
        lemma_sort_by_key_contains(v, s[i]);
        assert(s.contains(s[i]));
        let j = choose|j: int| 0 <= j < v.len() && v[j] == s[i];
        assert(v[j]@ == id);
    }
}

/// Every member of the ordered list is a member of the original list.
pub proof fn lemma_sort_by_key_valid(v: Seq<String>)
    requires
        forall|i: int| 0 <= i < v.len() ==> valid_node_id(#[trigger] v[i]@),
    ensures
        forall|i: int|
            0 <= i < spec_sort_by_key(v).len() ==> valid_node_id(
                #[trigger] spec_sort_by_key(v)[i]@,
            ),
{
    broadcast use vstd::seq_lib::to_multiset_contains;

    lemma_sort_by_key_multiset(v);
    let s = spec_sort_by_key(v);
    assert forall|i: int| 0 <= i < s.len() implies valid_node_id(#[trigger] s[i]@) by {
        lemma_sort_by_key_contains(v, s[i]);
        assert(s.contains(s[i]));
        assert(v.contains(s[i]));
        let j = choose|j: int| 0 <= j < v.len() && v[j] == s[i];
        assert(valid_node_id(v[j]@));
    }
}

/// Places one member into an ordered list.
fn insert_by_key(v: &mut Vec<String>, x: String)
    requires
        forall|i: int| 0 <= i < old(v)@.len() ==> valid_node_id(#[trigger] old(v)@[i]@),
        valid_node_id(x@),
    ensures
        final(v)@ == spec_insert_by_key(old(v)@, x),
{
    let kx = match parse_node_number(x.as_str()) {
        Some(k) => k,
        None => vstd::pervasive::unreached(),
    };
    let mut j: usize = 0;
    let mut stop = false;
    while j < v.len() && !stop
        invariant
            0 <= j <= v@.len(),
            v == old(v),
            forall|i: int| 0 <= i < v@.len() ==> valid_node_id(#[trigger] v@[i]@),
            kx == node_key(x@),
            forall|i: int| 0 <= i < j ==> node_key(#[trigger] v@[i]@) <= kx,
            stop ==> j < v@.len() && kx < node_key(v@[j as int]@),
        decreases v@.len() - j, (if stop { 0int } else { 1int }),
    {
        let kj = match parse_node_number(v[j].as_str()) {
            Some(k) => k,
            None => vstd::pervasive::unreached(),
        };
        if kx < kj {
            stop = true;
        } else {
            j = j + 1;
        }
    }
    proof {
        lemma_insert_by_key_at(old(v)@, x);
        let p = insert_pos(old(v)@, x);
        if p < j {
            assert(node_key(old(v)@[p as int]@) <= kx);
        }
        if j < p {
            assert(node_key(x@) < node_key(old(v)@[j as int]@));
            assert(node_key(old(v)@[j as int]@) <= node_key(x@));
        }
        assert(p == j);
    }
    v.insert(j, x);
}

/// The member list ordered by numeric suffix: the order every node
/// derives independently at startup.
pub fn sort_by_node_number(ids: Vec<String>) -> (r: Vec<String>)
    requires
        forall|i: int| 0 <= i < ids@.len() ==> valid_node_id(#[trigger] ids@[i]@),
    ensures
        r@ == spec_sort_by_key(ids@),
        sorted_by_key(r@),
        r@.to_multiset() == ids@.to_multiset(),
{
    proof {
        lemma_sort_by_key_sorted(ids@);
        lemma_sort_by_key_multiset(ids@);
    }
    let ghost orig = ids@;
    let mut ids = ids;
    let mut r: Vec<String> = Vec::new();
    while ids.len() > 0
        invariant
            ids@.len() <= orig.len(),
            ids@ == orig.take(ids@.len() as int),
            forall|i: int| 0 <= i < orig.len() ==> valid_node_id(#[trigger] orig[i]@),
            r@ == spec_sort_by_key(orig.subrange(ids@.len() as int, orig.len() as int)),
            forall|i: int| 0 <= i < r@.len() ==> valid_node_id(#[trigger] r@[i]@),
        decreases ids@.len(),
    {
        let ghost n = ids@.len() as int;
        let x = match ids.pop() {
            Some(x) => x,
            None => vstd::pervasive::unreached(),
        };
        proof {
            assert(x == orig[n - 1]);
            assert(ids@ == orig.take(n - 1));
            let tail = orig.subrange(n - 1, orig.len() as int);
            assert(tail.drop_first() == orig.subrange(n, orig.len() as int));
            assert(tail[0] == orig[n - 1]);
            lemma_insert_by_key_at(r@, x);
        }
        insert_by_key(&mut r, x);
    }
    proof {
        assert(orig.subrange(0, orig.len() as int) == orig);
    }
    r
}

/// Whether some member of `ids` has the identity `id`.
pub open spec fn has_id(ids: Seq<String>, id: Seq<char>) -> bool {
    exists|i: int| 0 <= i < ids.len() && ids[i]@ == id
}

/// The position of the first member of `ids` with the identity `id`.
pub open spec fn first_index_of(ids: Seq<String>, id: Seq<char>) -> int
    decreases ids.len(),
{
    if ids.len() == 0 {
        0
    } else if ids[0]@ == id {
        0
    } else {
        1 + first_index_of(ids.drop_first(), id)
    }
}

/// When `id` occurs in `ids`, `first_index_of` names its first
/// occurrence.
pub proof fn lemma_first_index_of(ids: Seq<String>, id: Seq<char>)
    requires
        has_id(ids, id),
    ensures
        0 <= first_index_of(ids, id) < ids.len(),
        ids[first_index_of(ids, id)]@ == id,
        forall|j: int| 0 <= j < first_index_of(ids, id) ==> ids[j]@ != id,
    decreases ids.len(),
{
    if ids[0]@ == id {
    } else {
        assert(has_id(ids.drop_first(), id)) by {
            let i = choose|i: int| 0 <= i < ids.len() && ids[i]@ == id;
            assert(ids.drop_first()[i - 1]@ == id);
        }
        lemma_first_index_of(ids.drop_first(), id);
        let f = first_index_of(ids.drop_first(), id);
        assert forall|j: int| 0 <= j < 1 + f implies ids[j]@ != id by {
            if j > 0 {
                assert(ids.drop_first()[j - 1]@ != id);
            }
        }
    }
}

/// The first member of `v` whose identity is `id`, if any.
pub fn find_first(v: &Vec<String>, id: &String) -> (r: Option<usize>)
    ensures
        r is Some <==> has_id(v@, id@),
        r matches Some(i) ==> i == first_index_of(v@, id@),
{
    let mut i: usize = 0;
    while i < v.len()
        invariant
            i <= v@.len(),
            forall|j: int| 0 <= j < i ==> v@[j]@ != id@,
        decreases v@.len() - i,
    {
        if v[i] == *id {
            proof {
                lemma_first_index_of(v@, id@);
            }
            return Some(i);
        }
        i = i + 1;
    }
    None
}

/// One past the last rank of group `g` in a member list of `len`,
/// partitioned into groups of `k`.
pub open spec fn group_end(len: nat, k: nat, g: nat) -> nat {
    if (g + 1) * k <= len {
        (g + 1) * k
    } else {
        len
    }
}

/// How many groups a member list of `len` splits into.
pub open spec fn num_groups(len: nat, k: nat) -> nat
    recommends
        1 <= k,
{
    if len == 0 {
        0
    } else {
        (len - 1) as nat / k + 1
    }
}

/// The relays (first members) of the groups before group `g`, skipping
/// the node's own group `own`, in group order.
pub open spec fn leaders_before(sorted: Seq<String>, k: nat, own: nat, g: nat) -> Seq<String>
    decreases g,
{
    if g == 0 {
        Seq::empty()
    } else if (g - 1) as nat == own {
        leaders_before(sorted, k, own, (g - 1) as nat)
    } else {
        leaders_before(sorted, k, own, (g - 1) as nat).push(sorted[((g - 1) * k) as int])
    }
}

/// The neighbour set of the member at `rank` in the ordered member list:
/// for a relay (first of its group), the rest of its own group followed by
/// every other group's relay; for a follower, just its group's relay.
pub open spec fn spec_neighbours(sorted: Seq<String>, k: nat, rank: nat) -> Seq<String>
    recommends
        1 <= k,
        rank < sorted.len(),
{
    let len = sorted.len();
    let g = rank / k;
    if rank % k == 0 {
        sorted.subrange(rank + 1 as int, group_end(len, k, g) as int) + leaders_before(
            sorted,
            k,
            g,
            num_groups(len, k),
        )
    } else {
        seq![sorted[(g * k) as int]]
    }
}

/// The neighbour set a node with identity `id` derives from the member
/// list `ids` with group size `k`.
pub open spec fn neighbours_of(id: Seq<char>, ids: Seq<String>, k: nat) -> Seq<String> {
    let sorted = spec_sort_by_key(ids);
    spec_neighbours(sorted, k, first_index_of(sorted, id) as nat)
}

/// The inputs from which a neighbour set can be derived: a positive group
/// size, well-formed identities, and a node that is itself a member.
pub open spec fn build_ok(id: Seq<char>, ids: Seq<String>, k: nat) -> bool {
    &&& 1 <= k
    &&& forall|i: int| 0 <= i < ids.len() ==> valid_node_id(#[trigger] ids[i]@)
    &&& has_id(ids, id)
}

/// Every group that exists starts within the member list.
proof fn lemma_group_start_in_range(len: nat, k: nat, j: nat)
    requires
        1 <= k,
        j < num_groups(len, k),
    ensures
        j * k < len,
{
    let m = (len - 1) as nat / k;
    assert(j <= m);
    vstd::arithmetic::div_mod::lemma_fundamental_div_mod((len - 1) as int, k as int);
    vstd::arithmetic::mul::lemma_mul_inequality(j as int, m as int, k as int);
    assert(m * k <= len - 1) by (nonlinear_arith)
        requires
            1 <= k,
            1 <= len,
            (len - 1) as int == k as int * m as int + (len - 1) as int % k as int,
            ((len - 1) as int % k as int) >= 0,
    ;
}

/// A relay's rank is the start of its group.
proof fn lemma_relay_rank(rank: nat, k: nat)
    requires
        1 <= k,
        rank % k == 0,
    ensures
        rank == (rank / k) * k,
{
    vstd::arithmetic::div_mod::lemma_fundamental_div_mod(rank as int, k as int);
    vstd::arithmetic::mul::lemma_mul_is_commutative(rank as int / k as int, k as int);
}

/// A group starts at or before each of its members, and ends after them.
proof fn lemma_group_bounds(len: nat, k: nat, rank: nat)
    requires
        1 <= k,
        rank < len,
    ensures
        (rank / k) * k <= rank,
        rank < group_end(len, k, rank / k),
        rank / k < num_groups(len, k),
{
    let g = rank / k;
    vstd::arithmetic::div_mod::lemma_fundamental_div_mod(rank as int, k as int);
    assert(g * k <= rank);
    assert(rank < (g + 1) * k) by (nonlinear_arith)
        requires
            1 <= k,
            rank as int == k as int * (g as int) + rank as int % k as int,
            (rank as int % k as int) < (k as int),
    ;
    let m = (len - 1) as nat / k;
    if g > m {
        vstd::arithmetic::div_mod::lemma_fundamental_div_mod((len - 1) as int, k as int);
        assert(false) by (nonlinear_arith)
            requires
                1 <= k,
                1 <= len,
                m as int + 1 <= g as int,
                (len - 1) as int == k as int * m as int + (len - 1) as int % k as int,
                0 <= ((len - 1) as int % k as int) < (k as int),
                rank as int == k as int * (g as int) + rank as int % k as int,
                0 <= (rank as int % k as int),
                rank < len,
        ;
    }
}

/// Builds the neighbour list of the member at `rank` in the ordered
/// member list.
fn build_neighbours(sorted: &Vec<String>, k: usize, rank: usize) -> (r: Vec<String>)
    requires
        1 <= k,
        rank < sorted@.len(),
    ensures
        r@ == spec_neighbours(sorted@, k as nat, rank as nat),
{
    let len = sorted.len();
    let g = rank / k;
    proof {
        lemma_group_bounds(len as nat, k as nat, rank as nat);
    }
    let mut r: Vec<String> = Vec::new();
    if rank % k == 0 {
        proof {
            lemma_relay_rank(rank as nat, k as nat);
        }
        let end = if len - rank <= k {
            len
        } else {
            rank + k
        };
        proof {
            assert((g + 1) * k == g * k + k) by (nonlinear_arith);
            assert(end == group_end(len as nat, k as nat, g as nat));
        }
        let mut i: usize = rank + 1;
        while i < end
            invariant
                rank + 1 <= i <= end,
                end <= sorted@.len(),
                r@ == sorted@.subrange(rank + 1, i as int),
            decreases end - i,
        {
            r.push(sorted[i].clone());
            proof {
                assert(sorted@.subrange(rank + 1, i + 1) == sorted@.subrange(
                    rank + 1,
                    i as int,
                ).push(sorted@[i as int]));
            }
            i = i + 1;
        }
        let ng = (len - 1) / k + 1;
        proof {
            assert(ng == num_groups(len as nat, k as nat));
        }
        let ghost chunk = sorted@.subrange(rank + 1, end as int);
        let mut j: usize = 0;
        while j < ng
            invariant
                j <= ng,
                1 <= k,
                1 <= len == sorted@.len(),
                ng == num_groups(len as nat, k as nat),
                r@ == chunk + leaders_before(sorted@, k as nat, g as nat, j as nat),
            decreases ng - j,
        {
            if j != g {
                proof {
                    lemma_group_start_in_range(len as nat, k as nat, j as nat);
                }
                r.push(sorted[j * k].clone());
            }
            j = j + 1;
        }
        r
    } else {
        r.push(sorted[g * k].clone());
        r
    }
}

/// Derives this node's neighbour set from the full member list.
///
/// Returns the set exactly when the group size is positive, every
/// identity is well formed, and this node is itself a member.
pub fn build(node_id: &String, node_ids: &Vec<String>, group_size: usize) -> (r: Option<
    Vec<String>,
>)
    ensures
        r is Some <==> build_ok(node_id@, node_ids@, group_size as nat),
        r matches Some(v) ==> v@ == neighbours_of(node_id@, node_ids@, group_size as nat),
{
    if group_size == 0 {
        return None;
    }
    let mut i: usize = 0;
    while i < node_ids.len()
        invariant
            i <= node_ids@.len(),
            forall|j: int| 0 <= j < i ==> valid_node_id(#[trigger] node_ids@[j]@),
        decreases node_ids@.len() - i,
    {
        if parse_node_number(node_ids[i].as_str()).is_none() {
            return None;
        }
        i = i + 1;
    }
    let mut owned: Vec<String> = Vec::new();
    let mut i: usize = 0;
    while i < node_ids.len()
        invariant
            i <= node_ids@.len(),
            owned@ =~= node_ids@.take(i as int),
        decreases node_ids@.len() - i,
    {
        owned.push(node_ids[i].clone());
        proof {
            assert(node_ids@.take(i + 1) == node_ids@.take(i as int).push(node_ids@[i as int]));
        }
        i = i + 1;
    }
    proof {
        assert(owned@ == node_ids@) by {
            assert(node_ids@.take(node_ids@.len() as int) == node_ids@);
        }
    }
    let sorted = sort_by_node_number(owned);
    proof {
        lemma_sort_by_key_has_id(node_ids@, node_id@);
    }
    let rank = match find_first(&sorted, node_id) {
        Some(rank) => rank,
        None => {
            return None;
        },
    };
    proof {
        lemma_sort_by_key_multiset(node_ids@);
        lemma_first_index_of(sorted@, node_id@);
        lemma_sort_by_key_valid(node_ids@);
    }
    Some(build_neighbours(&sorted, group_size, rank))
}

/// The neighbour set of `node_id` among `node_ids`, with the default
/// group size of five. Every member, given the same list, derives a
/// consistent set: the graph the sets induce is connected, and each edge
/// appears at both of its ends.
pub fn pick_neighbours(node_id: String, node_ids: Vec<String>) -> (r: Vec<String>)
    requires
        forall|i: int| 0 <= i < node_ids@.len() ==> valid_node_id(#[trigger] node_ids@[i]@),
        has_id(node_ids@, node_id@),
    ensures
        r@ == neighbours_of(node_id@, node_ids@, 5),
{
    let neighbourhood_size: usize = 5;
    match build(&node_id, &node_ids, neighbourhood_size) {
        Some(neighbours) => neighbours,
        None => vstd::pervasive::unreached(),
    }
}

/// Rank-level adjacency in the hub-and-spoke graph over `n` members with
/// group size `k`: a relay borders the rest of its group and every other
/// relay; a follower borders exactly its group's relay.
pub open spec fn is_neighbour_rank(n: nat, k: nat, i: nat, j: nat) -> bool {
    &&& 1 <= k
    &&& i < n
    &&& j < n
    &&& i != j
    &&& if i % k == 0 {
        j / k == i / k || j % k == 0
    } else {
        j == (i / k) * k
    }
}

/// A group's start is a relay rank within its own group.
proof fn lemma_group_start_facts(a: nat, k: nat)
    requires
        1 <= k,
    ensures
        (a * k) % k == 0,
        (a * k) / k == a,
{
    vstd::arithmetic::div_mod::lemma_mod_multiples_basic(a as int, k as int);
    vstd::arithmetic::div_mod::lemma_div_by_multiple(a as int, k as int);
}

/// Every rank between a group's start and its end lies in that group.
proof fn lemma_rank_in_group(k: nat, g: nat, j: nat)
    requires
        1 <= k,
        g * k <= j < g * k + k,
    ensures
        j / k == g,
{
    let b = j - g * k;
    vstd::arithmetic::div_mod::lemma_div_multiples_vanish_fancy(g as int, b as int, k as int);
    vstd::arithmetic::mul::lemma_mul_is_commutative(g as int, k as int);
}

proof fn lemma_neighbour_one_way(n: nat, k: nat, i: nat, j: nat)
    requires
        1 <= k,
    ensures
        is_neighbour_rank(n, k, i, j) ==> is_neighbour_rank(n, k, j, i),
{
    if is_neighbour_rank(n, k, i, j) {
        if i % k == 0 {
            lemma_relay_rank(i, k);
            if j / k == i / k {
                if j % k == 0 {
                    lemma_relay_rank(j, k);
                } else {
                    assert(i == (j / k) * k);
                }
            }
        } else {
            lemma_group_start_facts(i / k, k);
            assert(j % k == 0 && j / k == i / k);
        }
    }
}

/// Every edge of the topology is mutually consistent: a node lists a peer
/// exactly when the peer lists it.
pub proof fn lemma_neighbour_symmetric(n: nat, k: nat, i: nat, j: nat)
    requires
        1 <= k,
    ensures
        is_neighbour_rank(n, k, i, j) == is_neighbour_rank(n, k, j, i),
{
    lemma_neighbour_one_way(n, k, i, j);
    lemma_neighbour_one_way(n, k, j, i);
}

/// The topology is connected: any member reaches any other in at most
/// three hops, through its own relay and the target's relay.
pub proof fn lemma_topology_connected(n: nat, k: nat, i: nat, j: nat)
    requires
        1 <= k,
        i < n,
        j < n,
    ensures
        ({
            let a = (i / k) * k;
            let b = (j / k) * k;
            &&& a < n
            &&& b < n
            &&& i == a || is_neighbour_rank(n, k, i, a)
            &&& a == b || is_neighbour_rank(n, k, a, b)
            &&& b == j || is_neighbour_rank(n, k, b, j)
        }),
{
    let a = (i / k) * k;
    let b = (j / k) * k;
    lemma_group_bounds(n, k, i);
    lemma_group_bounds(n, k, j);
    lemma_group_start_facts(i / k, k);
    lemma_group_start_facts(j / k, k);
    if i != a {
        if i % k == 0 {
            lemma_relay_rank(i, k);
        }
        assert(is_neighbour_rank(n, k, i, a));
    }
    if b != j {
        if j % k == 0 {
            lemma_relay_rank(j, k);
        }
        assert(is_neighbour_rank(n, k, b, j));
    }
}

/// Witness that `x` is the relay of group `m`, one of the first `g`
/// groups other than the node's own.
spec fn is_leader_entry(sorted: Seq<String>, k: nat, own: nat, g: nat, x: String, m: nat) -> bool {
    m < g && m != own && m * k < sorted.len() && x == sorted[(m * k) as int]
}

/// Membership in `leaders_before`: exactly the group starts below `g`,
/// the node's own group excepted.
proof fn lemma_leaders_before_contains(sorted: Seq<String>, k: nat, own: nat, g: nat, x: String)
    requires
        1 <= k,
        g <= num_groups(sorted.len(), k),
    ensures
        leaders_before(sorted, k, own, g).contains(x) <==> exists|m: nat|
            is_leader_entry(sorted, k, own, g, x, m),
    decreases g,
{
    if g == 0 {
    } else {
        let gg = (g - 1) as nat;
        lemma_leaders_before_contains(sorted, k, own, gg, x);
        lemma_group_start_in_range(sorted.len(), k, gg);
        let prev = leaders_before(sorted, k, own, gg);
        let cur = leaders_before(sorted, k, own, g);
        if gg == own {
            assert(cur == prev);
            if cur.contains(x) {
                let m = choose|m: nat| is_leader_entry(sorted, k, own, gg, x, m);
                assert(is_leader_entry(sorted, k, own, g, x, m));
            }
            if exists|m: nat| is_leader_entry(sorted, k, own, g, x, m) {
                let m = choose|m: nat| is_leader_entry(sorted, k, own, g, x, m);
                assert(is_leader_entry(sorted, k, own, gg, x, m));
            }
        } else {
            assert(cur == prev.push(sorted[(gg * k) as int]));
            if cur.contains(x) {
                let t = choose|t: int| 0 <= t < cur.len() && cur[t] == x;
                if t < prev.len() {
                    assert(prev[t] == x);
                    let m = choose|m: nat| is_leader_entry(sorted, k, own, gg, x, m);
                    assert(is_leader_entry(sorted, k, own, g, x, m));
                } else {
                    assert(x == sorted[(gg * k) as int]);
                    assert(is_leader_entry(sorted, k, own, g, x, gg));
                }
            }
            if exists|m: nat| is_leader_entry(sorted, k, own, g, x, m) {
                let m = choose|m: nat| is_leader_entry(sorted, k, own, g, x, m);
                if m < gg {
                    assert(is_leader_entry(sorted, k, own, gg, x, m));
                    assert(prev.contains(x));
                    let t = choose|t: int| 0 <= t < prev.len() && prev[t] == x;
                    assert(cur[t] == x);
                } else {
                    assert(m == gg);
                    assert(cur.last() == x);
                    assert(cur[cur.len() - 1] == x);
                }
            }
        }
    }
}

/// The neighbour list of the member at rank `i` holds the member at rank
/// `j` exactly when the two ranks are adjacent in the hub-and-spoke
/// graph. Members must be pairwise distinct.
pub proof fn lemma_neighbours_complete(sorted: Seq<String>, k: nat, i: nat, j: nat)
    requires
        1 <= k,
        i < sorted.len(),
        j < sorted.len(),
        forall|p: int, q: int| 0 <= p < q < sorted.len() ==> sorted[p] != sorted[q],
    ensures
        spec_neighbours(sorted, k, i).contains(sorted[j as int]) == is_neighbour_rank(
            sorted.len(),
            k,
            i,
            j,
        ),
{
    let n = sorted.len();
    let g = i / k;
    let x = sorted[j as int];
    lemma_group_bounds(n, k, i);
    lemma_group_bounds(n, k, j);
    lemma_group_start_facts(g, k);
    if i % k == 0 {
        lemma_relay_rank(i, k);
        let chunk = sorted.subrange(i + 1 as int, group_end(n, k, g) as int);
        let leaders = leaders_before(sorted, k, g, num_groups(n, k));
        let nb = spec_neighbours(sorted, k, i);
        assert(nb == chunk + leaders);
        lemma_leaders_before_contains(sorted, k, g, num_groups(n, k), x);
        assert(nb.contains(x) <==> chunk.contains(x) || leaders.contains(x)) by {
            if chunk.contains(x) {
                let t = choose|t: int| 0 <= t < chunk.len() && chunk[t] == x;
                assert(nb[t] == x);
            }
            if leaders.contains(x) {
                let t = choose|t: int| 0 <= t < leaders.len() && leaders[t] == x;
                assert(nb[chunk.len() + t] == x);
            }
            if nb.contains(x) {
                let t = choose|t: int| 0 <= t < nb.len() && nb[t] == x;
                if t < chunk.len() {
                    assert(chunk[t] == x);
                } else {
                    assert(leaders[t - chunk.len()] == x);
                }
            }
        }
        assert(chunk.contains(x) <==> i + 1 <= j < group_end(n, k, g)) by {
            if chunk.contains(x) {
                let t = choose|t: int| 0 <= t < chunk.len() && chunk[t] == x;
                assert(sorted[i + 1 + t] == x);
                assert(i + 1 + t == j);
            }
            if i + 1 <= j < group_end(n, k, g) {
                assert(chunk[j - i - 1] == x);
            }
        }
        if is_neighbour_rank(n, k, i, j) {
            if j / k == g {
                assert(g * k <= j < group_end(n, k, g));
                assert(i + 1 <= j);
            } else {
                assert(j % k == 0);
                lemma_relay_rank(j, k);
                assert(is_leader_entry(sorted, k, g, num_groups(n, k), x, j / k));
            }
            assert(nb.contains(x));
        }
        if nb.contains(x) {
            if chunk.contains(x) {
                assert(i + 1 <= j < group_end(n, k, g));
                assert(group_end(n, k, g) <= g * k + k) by {
                    assert((g + 1) * k == g * k + k) by (nonlinear_arith);
                }
                lemma_rank_in_group(k, g, j);
                assert(is_neighbour_rank(n, k, i, j));
            } else {
                let m = choose|m: nat| is_leader_entry(sorted, k, g, num_groups(n, k), x, m);
                assert(sorted[(m * k) as int] == sorted[j as int]);
                assert(m * k == j) by {
                    if m * k < j {
                        assert(sorted[(m * k) as int] != sorted[j as int]);
                    }
                    if j < m * k {
                        assert(sorted[j as int] != sorted[(m * k) as int]);
                    }
                }
                lemma_group_start_facts(m, k);
                assert(j % k == 0);
                assert(j != i) by {
                    if j == i {
                        assert(j / k == m);
                    }
                }
                assert(is_neighbour_rank(n, k, i, j));
            }
        }
    } else {
        let nb = spec_neighbours(sorted, k, i);
        assert(nb == seq![sorted[(g * k) as int]]);
        assert(g * k < n);
        if nb.contains(x) {
            let t = choose|t: int| 0 <= t < nb.len() && nb[t] == x;
            assert(sorted[(g * k) as int] == sorted[j as int]);
            assert(g * k == j) by {
                if g * k < j {
                    assert(sorted[(g * k) as int] != sorted[j as int]);
                }
                if j < g * k {
                    assert(sorted[j as int] != sorted[(g * k) as int]);
                }
            }
            assert(i != j) by {
                if i == j {
                    lemma_group_start_facts(g, k);
                    assert(i % k == 0);
                }
            }
            assert(is_neighbour_rank(n, k, i, j));
        }
        if is_neighbour_rank(n, k, i, j) {
            assert(j == g * k);
            assert(nb[0] == x);
        }
    }
}

/// Two members of a list with pairwise distinct identities each list the
/// other exactly when the other lists them: the neighbour relation every
/// node derives independently is mutually consistent.
pub proof fn lemma_neighbour_lists_mutual(sorted: Seq<String>, k: nat, i: nat, j: nat)
    requires
        1 <= k,
        i < sorted.len(),
        j < sorted.len(),
        forall|p: int, q: int| 0 <= p < q < sorted.len() ==> sorted[p] != sorted[q],
    ensures
        spec_neighbours(sorted, k, i).contains(sorted[j as int]) == spec_neighbours(
            sorted,
            k,
            j,
        ).contains(sorted[i as int]),
{
    lemma_neighbours_complete(sorted, k, i, j);
    lemma_neighbours_complete(sorted, k, j, i);
    lemma_neighbour_symmetric(sorted.len(), k, i, j);
}

/// For any member list with pairwise distinct numeric suffixes and any
/// group size, the neighbour sets the members derive are mutually
/// consistent: member `a` lists member `b` exactly when `b` lists `a`.
pub proof fn lemma_topology_mutual(ids: Seq<String>, k: nat, a: String, b: String)
    requires
        1 <= k,
        ids.contains(a),
        ids.contains(b),
        forall|p: int, q: int|
            0 <= p < q < ids.len() ==> node_key(ids[p]@) != node_key(ids[q]@),
    ensures
        neighbours_of(a@, ids, k).contains(b) == neighbours_of(b@, ids, k).contains(a),
{
    let sorted = spec_sort_by_key(ids);
    assert(ids.no_duplicates()) by {
        assert forall|p: int, q: int| 0 <= p < q < ids.len() implies ids[p] != ids[q] by {
            assert(node_key(ids[p]@) != node_key(ids[q]@));
        }
    }
    lemma_sort_by_key_multiset(ids);
    ids.lemma_multiset_has_no_duplicates();
    sorted.lemma_multiset_has_no_duplicates_conv();
    assert forall|p: int, q: int| 0 <= p < q < sorted.len() implies
        node_key(sorted[p]@) != node_key(sorted[q]@) by {
        assert(sorted.contains(sorted[p]));
        assert(sorted.contains(sorted[q]));
        lemma_sort_by_key_contains(ids, sorted[p]);
        lemma_sort_by_key_contains(ids, sorted[q]);
        let pp = choose|t: int| 0 <= t < ids.len() && ids[t] == sorted[p];
        let qq = choose|t: int| 0 <= t < ids.len() && ids[t] == sorted[q];
        if node_key(sorted[p]@) == node_key(sorted[q]@) {
            assert(pp == qq);
        }
    }
    lemma_sort_by_key_contains(ids, a);
    lemma_sort_by_key_contains(ids, b);
    let pa = choose|t: int| 0 <= t < sorted.len() && sorted[t] == a;
    let pb = choose|t: int| 0 <= t < sorted.len() && sorted[t] == b;
    assert(has_id(sorted, a@)) by {
        assert(sorted[pa]@ == a@);
    }
    assert(has_id(sorted, b@)) by {
        assert(sorted[pb]@ == b@);
    }
    lemma_first_index_of(sorted, a@);
    lemma_first_index_of(sorted, b@);
    let ia = first_index_of(sorted, a@);
    let ib = first_index_of(sorted, b@);
    assert(sorted[ia] == a) by {
        if pa != ia {
            assert(node_key(sorted[pa]@) != node_key(sorted[ia]@));
        }
    }
    assert(sorted[ib] == b) by {
        if pb != ib {
            assert(node_key(sorted[pb]@) != node_key(sorted[ib]@));
        }
    }
    lemma_neighbour_lists_mutual(sorted, k, ia as nat, ib as nat);
}

/// A server-assigned topology: an association of node identities with
/// neighbour lists. The node ignores its content and derives its own
/// neighbour set, but the association can still be queried.
pub struct Topology {
    pub topology: Vec<(String, Vec<String>)>,
}

impl Topology {
    /// Whether the topology names `key`.
    pub open spec fn has_key(&self, key: Seq<char>) -> bool {
        exists|i: int| 0 <= i < self.topology@.len() && self.topology@[i].0@ == key
    }

    /// An empty topology.
    pub fn new() -> (t: Topology)
        ensures
            t.topology@.len() == 0,
    {
        Topology { topology: Vec::new() }
    }

    /// Adds one association.
    pub fn insert(&mut self, key: String, value: Vec<String>)
        ensures
            final(self).topology@ == old(self).topology@.push((key, value)),
    {
        self.topology.push((key, value));
    }

    /// The neighbour list associated with `key`, if any: the first entry
    /// under that identity.
    pub fn get(&self, key: &String) -> (r: Option<&Vec<String>>)
        ensures
            r is Some <==> self.has_key(key@),
            r matches Some(v) ==> exists|i: int|
                0 <= i < self.topology@.len() && self.topology@[i].0@ == key@ && (forall|j: int|
                    0 <= j < i ==> self.topology@[j].0@ != key@) && v@ == self.topology@[i].1@,
    {
        let mut i: usize = 0;
        while i < self.topology.len()
            invariant
                i <= self.topology@.len(),
                forall|j: int| 0 <= j < i ==> self.topology@[j].0@ != key@,
            decreases self.topology@.len() - i,
        {
            if self.topology[i].0 == *key {
                return Some(&self.topology[i].1);
            }
            i = i + 1;
        }
        None
    }
}

} // verus!
