//! Tree objects: an ordered list of named references to child objects,
//! serialized as `<mode> <name>\0<20-byte id>` records in a canonical
//! order that does not depend on how the entries were gathered.

use crate::digits::{all_digits, is_ascii_digit};
use crate::envelope::{find_byte, lemma_find_byte, lemma_find_byte_is};
use crate::hexcode::{hex_decode, hex_encode, hex_of, is_hex_lower, lemma_hex_of_unhex,
    lemma_unhex_hex_of, unhex};
use crate::lexorder::{bytes_leq, lemma_lex_antisymmetric, lemma_lex_total, lemma_lex_transitive,
    lex_leq};
use crate::Error;
use vstd::multiset::Multiset;
use vstd::prelude::*;
use vstd::relations::sorted_by;

verus! {

/// One entry of a tree: a mode, a path segment, and the hex id of the
/// child object the entry names.
pub struct GitTreeLeaf {
    /// Six ASCII digits describing the child's type and permissions.
    pub mode: Vec<u8>,
    /// The entry's name, a path segment without separators or NUL.
    pub path: Vec<u8>,
    /// The child's id as forty lowercase hex digits.
    pub sha_hash: String,
}

/// The mathematical content of a tree entry.
pub ghost struct LeafView {
    pub mode: Seq<u8>,
    pub path: Seq<u8>,
    pub sha_hash: Seq<char>,
}

impl View for GitTreeLeaf {
    type V = LeafView;

    open spec fn view(&self) -> LeafView {
        LeafView { mode: self.mode@, path: self.path@, sha_hash: self.sha_hash@ }
    }
}

/// A well-formed entry: a six-digit mode, a name free of NUL bytes, and
/// an id of forty lowercase hex digits.
pub open spec fn leaf_wf(l: LeafView) -> bool {
    &&& l.mode.len() == 6
    &&& all_digits(l.mode)
    &&& forall|i: int| 0 <= i < l.path.len() ==> l.path[i] != 0
    &&& l.sha_hash.len() == 40
    &&& is_hex_lower(l.sha_hash)
}

/// A tree object: entries in any order; serialization sorts them.
pub struct GitTree {
    pub leaves: Vec<GitTreeLeaf>,
}

impl View for GitTree {
    type V = Seq<LeafView>;

    open spec fn view(&self) -> Seq<LeafView> {
        self.leaves@.map_values(|l: GitTreeLeaf| l@)
    }
}

/// Every entry of the tree is well formed.
pub open spec fn tree_wf(t: Seq<LeafView>) -> bool {
    forall|i: int| 0 <= i < t.len() ==> leaf_wf(#[trigger] t[i])
}

/// A mode starting `10` marks a regular file; anything else is treated
/// as a directory for ordering purposes.
pub open spec fn is_file_mode(m: Seq<u8>) -> bool {
    m.len() >= 2 && m[0] == 49 && m[1] == 48
}

/// The canonical sort key: the name itself for a file, the name with a
/// trailing separator for a directory. The separator is never written
/// to the serialized output; it only makes a file and a directory of
/// the same name sort as distinct, deterministic neighbours.
pub open spec fn key_of(l: LeafView) -> Seq<u8> {
    if is_file_mode(l.mode) {
        l.path
    } else {
        l.path + seq![92u8]
    }
}

/// Entry order: lexicographic on the canonical keys.
pub open spec fn leaf_leq(a: LeafView, b: LeafView) -> bool {
    lex_leq(key_of(a), key_of(b))
}

/// The entry order as a value, for `sorted_by`.
pub open spec fn leaf_order() -> spec_fn(LeafView, LeafView) -> bool {
    |a: LeafView, b: LeafView| leaf_leq(a, b)
}

/// Insert `x` behind every entry that sorts no later than it, so that
/// entries with equal keys keep their relative order.
pub open spec fn insert_leaf(s: Seq<LeafView>, x: LeafView) -> Seq<LeafView>
    decreases s.len(),
{
    if s.len() == 0 {
        seq![x]
    } else if leaf_leq(s.first(), x) {
        seq![s.first()] + insert_leaf(s.drop_first(), x)
    } else {
        seq![x] + s
    }
}

/// Stable insertion sort by the canonical key.
pub open spec fn sort_leaves_spec(s: Seq<LeafView>) -> Seq<LeafView>
    decreases s.len(),
{
    if s.len() == 0 {
        Seq::empty()
    } else {
        insert_leaf(sort_leaves_spec(s.drop_last()), s.last())
    }
}

/// Inserting keeps sortedness and adds exactly the new entry.
proof fn lemma_insert_leaf(s: Seq<LeafView>, x: LeafView)
    requires
        sorted_by(s, leaf_order()),
    ensures
        sorted_by(insert_leaf(s, x), leaf_order()),
        insert_leaf(s, x).to_multiset() == s.to_multiset().insert(x),
        insert_leaf(s, x).len() == s.len() + 1,
    decreases s.len(),
{
    broadcast use vstd::seq_lib::group_to_multiset_ensures;

    let leq = leaf_order();
    let r = insert_leaf(s, x);
    if s.len() == 0 {
        assert(r =~= seq![x]);
        assert(r.to_multiset() =~= s.to_multiset().insert(x)) by {
            assert(r =~= Seq::<LeafView>::empty().push(x));
            assert(s.to_multiset() =~= Multiset::<LeafView>::empty());
        }
    } else if leaf_leq(s.first(), x) {
        let t = s.drop_first();
        assert(sorted_by(t, leq)) by {
            assert forall|i: int, j: int| 0 <= i < j < t.len() implies leq(t[i], t[j]) by {
                assert(s[i + 1] == t[i] && s[j + 1] == t[j]);
            }
        }
        lemma_insert_leaf(t, x);
        let rt = insert_leaf(t, x);
        assert(r =~= seq![s.first()] + rt);
        // the head sorts no later than everything behind it
        assert forall|i: int, j: int| 0 <= i < j < r.len() implies leq(r[i], r[j]) by {
            if i == 0 {
                // r[j] is x or an entry of t, and s.first() precedes both
                assert(rt.to_multiset().contains(rt[j - 1]));
                if rt[j - 1] == x {
                    assert(leq(s.first(), x));
                } else {
                    assert(t.to_multiset().contains(rt[j - 1]));
                    let k = choose|k: int| 0 <= k < t.len() && t[k] == rt[j - 1];
                    assert(s[k + 1] == t[k]);
                    assert(leq(s[0], s[k + 1]));
                }
            } else {
                assert(r[i] == rt[i - 1] && r[j] == rt[j - 1]);
            }
        }
        assert(r.to_multiset() =~= s.to_multiset().insert(x)) by {
            assert(s =~= seq![s.first()] + t);
            vstd::seq_lib::lemma_multiset_commutative(seq![s.first()], t);
            vstd::seq_lib::lemma_multiset_commutative(seq![s.first()], rt);
        }
    } else {
        assert(r =~= seq![x] + s);
        lemma_lex_total(key_of(x), key_of(s.first()));
        assert forall|i: int, j: int| 0 <= i < j < r.len() implies leq(r[i], r[j]) by {
            if i == 0 {
                assert(leq(x, s.first()));
                if j > 1 {
                    assert(leq(s[0], s[j - 1]));
                    lemma_lex_transitive(key_of(x), key_of(s[0]), key_of(s[j - 1]));
                }
            } else {
                assert(r[i] == s[i - 1] && r[j] == s[j - 1]);
            }
        }
        assert(r.to_multiset() =~= s.to_multiset().insert(x)) by {
            vstd::seq_lib::lemma_multiset_commutative(seq![x], s);
        }
    }
}

/// What sorting yields: a sorted permutation of the input.
pub proof fn lemma_sort_leaves(s: Seq<LeafView>)
    ensures
        sorted_by(sort_leaves_spec(s), leaf_order()),
        sort_leaves_spec(s).to_multiset() == s.to_multiset(),
        sort_leaves_spec(s).len() == s.len(),
    decreases s.len(),
{
    broadcast use vstd::seq_lib::group_to_multiset_ensures;

    if s.len() > 0 {
        lemma_sort_leaves(s.drop_last());
        lemma_insert_leaf(sort_leaves_spec(s.drop_last()), s.last());
        assert(s =~= s.drop_last().push(s.last()));
        assert(s.to_multiset() =~= s.drop_last().to_multiset().insert(s.last()));
    }
}

/// Where the new entry lands: behind the `k` entries that sort no later
/// than it, in front of everything else.
proof fn lemma_insert_leaf_at(s: Seq<LeafView>, x: LeafView, k: int)
    requires
        0 <= k <= s.len(),
        forall|m: int| 0 <= m < k ==> leaf_leq(#[trigger] s[m], x),
        k < s.len() ==> !leaf_leq(s[k], x),
    ensures
        insert_leaf(s, x) == s.take(k) + seq![x] + s.skip(k),
    decreases s.len(),
{
    if k == 0 {
        if s.len() == 0 {
            assert(insert_leaf(s, x) =~= s.take(0) + seq![x] + s.skip(0));
        } else {
            assert(insert_leaf(s, x) =~= s.take(0) + seq![x] + s.skip(0));
        }
    } else {
        let t = s.drop_first();
        assert(leaf_leq(s.first(), x));
        assert forall|m: int| 0 <= m < k - 1 implies leaf_leq(#[trigger] t[m], x) by {
            assert(t[m] == s[m + 1]);
        }
        assert(k - 1 < t.len() ==> !leaf_leq(t[k - 1], x)) by {
            if k - 1 < t.len() {
                assert(t[k - 1] == s[k]);
            }
        }
        lemma_insert_leaf_at(t, x, k - 1);
        assert(insert_leaf(s, x) =~= s.take(k) + seq![x] + s.skip(k)) by {
            assert(insert_leaf(s, x) == seq![s.first()] + (t.take(k - 1) + seq![x] + t.skip(k
                - 1)));
        }
    }
}

/// Compute the canonical key of an entry.
pub fn leaf_key(l: &GitTreeLeaf) -> (r: Vec<u8>)
    ensures
        r@ == key_of(l@),
{
    let mut k: Vec<u8> = Vec::new();
    k.extend_from_slice(l.path.as_slice());
    let is_file = l.mode.len() >= 2 && l.mode[0] == 49 && l.mode[1] == 48;
    if !is_file {
        k.push(92);
    }
    assert(k@ =~= key_of(l@));
    k
}

/// Decide the entry order of `a` and `b`.
pub fn leaf_leq_exec(a: &GitTreeLeaf, b: &GitTreeLeaf) -> (r: bool)
    ensures
        r == leaf_leq(a@, b@),
{
    let ka = leaf_key(a);
    let kb = leaf_key(b);
    bytes_leq(&ka, &kb)
}

/// The mode as written: one leading zero is trimmed, matching the
/// narrow historical encoding.
pub open spec fn mode_trimmed(m: Seq<u8>) -> Seq<u8> {
    if m.len() > 0 && m[0] == 48 {
        m.drop_first()
    } else {
        m
    }
}

/// One serialized entry: trimmed mode, space, name, NUL, then the
/// twenty raw bytes of the child id.
pub open spec fn leaf_bytes(l: LeafView) -> Seq<u8> {
    mode_trimmed(l.mode) + seq![32u8] + l.path + seq![0u8] + unhex(l.sha_hash)
}

/// The serialized entries, one record after the other, no separators.
pub open spec fn emit_leaves(s: Seq<LeafView>) -> Seq<u8>
    decreases s.len(),
{
    if s.len() == 0 {
        Seq::empty()
    } else {
        leaf_bytes(s.first()) + emit_leaves(s.drop_first())
    }
}

/// Emitting one more entry appends its record.
proof fn lemma_emit_push(s: Seq<LeafView>, x: LeafView)
    ensures
        emit_leaves(s.push(x)) == emit_leaves(s) + leaf_bytes(x),
    decreases s.len(),
{
    if s.len() == 0 {
        assert(s.push(x).drop_first() =~= Seq::<LeafView>::empty());
        assert(s.push(x).first() == x);
        assert(emit_leaves(s.push(x)) == leaf_bytes(x) + emit_leaves(Seq::<LeafView>::empty()));
        assert(emit_leaves(s.push(x)) =~= emit_leaves(s) + leaf_bytes(x));
    } else {
        lemma_emit_push(s.drop_first(), x);
        assert(s.push(x).drop_first() =~= s.drop_first().push(x));
        assert(s.push(x).first() == s.first());
        assert(emit_leaves(s.push(x)) == leaf_bytes(s.first()) + (emit_leaves(s.drop_first())
            + leaf_bytes(x)));
        assert(emit_leaves(s.push(x)) =~= emit_leaves(s) + leaf_bytes(x));
    }
}

/// The full tree payload: the entries in canonical order, serialized.
pub open spec fn tree_ser_spec(s: Seq<LeafView>) -> Seq<u8> {
    emit_leaves(sort_leaves_spec(s))
}

/// The views of a sequence of borrowed entries.
pub open spec fn refs_views(s: Seq<&GitTreeLeaf>) -> Seq<LeafView> {
    s.map_values(|l: &GitTreeLeaf| l@)
}

/// Where `x` goes in the already ordered prefix: behind every entry
/// that sorts no later than it.
fn insert_position(order: &Vec<&GitTreeLeaf>, x: &GitTreeLeaf) -> (k: usize)
    ensures
        0 <= k <= order@.len(),
        forall|m: int| 0 <= m < k ==> leaf_leq(#[trigger] refs_views(order@)[m], x@),
        k < order@.len() ==> !leaf_leq(refs_views(order@)[k as int], x@),
{
    let mut k: usize = 0;
    while k < order.len()
        invariant
            0 <= k <= order@.len(),
            forall|m: int| 0 <= m < k ==> leaf_leq(#[trigger] refs_views(order@)[m], x@),
        decreases order@.len() - k,
    {
        if !leaf_leq_exec(order[k], x) {
            return k;
        }
        k = k + 1;
    }
    k
}

/// Append `v[from..to]` to `out`.
fn push_range(out: &mut Vec<u8>, v: &Vec<u8>, from: usize, to: usize)
    requires
        from <= to <= v@.len(),
    ensures
        final(out)@ == old(out)@ + v@.subrange(from as int, to as int),
{
    let mut t: usize = from;
    while t < to
        invariant
            from <= t <= to <= v@.len(),
            out@ =~= old(out)@ + v@.subrange(from as int, t as int),
        decreases to - t,
    {
        out.push(v[t]);
        assert(out@ =~= old(out)@ + v@.subrange(from as int, t + 1));
        t = t + 1;
    }
}

impl GitTree {
    /// Serialize the tree: sort the entries by the canonical key, then
    /// emit each as `<mode> <name>\0<20-byte id>`.
    pub fn serialize(&self) -> (r: Vec<u8>)
        requires
            tree_wf(self@),
        ensures
            r@ == tree_ser_spec(self@),
    {
        let n = self.leaves.len();
        let mut order: Vec<&GitTreeLeaf> = Vec::new();
        let mut i: usize = 0;
        while i < n
            invariant
                0 <= i <= n,
                n == self.leaves@.len(),
                tree_wf(self@),
                refs_views(order@) =~= sort_leaves_spec(self@.take(i as int)),
                forall|m: int| 0 <= m < order@.len() ==> leaf_wf(
                    #[trigger] refs_views(order@)[m],
                ),
            decreases n - i,
        {
            let x = &self.leaves[i];
            assert(x@ == self@[i as int]);
            assert(leaf_wf(x@));
            let k = insert_position(&order, x);
            proof {
                lemma_insert_leaf_at(refs_views(order@), x@, k as int);
            }
            let ghost old_order = order@;
            order.insert(k, x);
            proof {
                assert(refs_views(order@) =~= refs_views(old_order).take(k as int) + seq![x@]
                    + refs_views(old_order).skip(k as int));
                assert(self@.take(i + 1).drop_last() =~= self@.take(i as int));
                assert(self@.take(i + 1).last() == self@[i as int]);
            }
            i = i + 1;
        }
        assert(self@.take(n as int) =~= self@);

        let ghost sorted = refs_views(order@);
        let mut out: Vec<u8> = Vec::new();
        let mut j: usize = 0;
        while j < order.len()
            invariant
                0 <= j <= order@.len(),
                sorted == refs_views(order@),
                forall|m: int| 0 <= m < order@.len() ==> leaf_wf(
                    #[trigger] refs_views(order@)[m],
                ),
                out@ =~= emit_leaves(sorted.take(j as int)),
            decreases order@.len() - j,
        {
            let l = order[j];
            assert(l@ == sorted[j as int]);
            assert(leaf_wf(l@));
            let ghost before = out@;
            if l.mode.len() > 0 && l.mode[0] == 48 {
                push_range(&mut out, &l.mode, 1, l.mode.len());
                assert(l@.mode.subrange(1, l@.mode.len() as int) =~= l@.mode.drop_first());
                assert(out@ == before + mode_trimmed(l@.mode));
            } else {
                out.extend_from_slice(l.mode.as_slice());
                assert(out@ == before + mode_trimmed(l@.mode));
            }
            out.push(32);
            out.extend_from_slice(l.path.as_slice());
            out.push(0);
            let id_bytes = hex_decode(l.sha_hash.as_str());
            out.extend_from_slice(id_bytes.as_slice());
            proof {
                assert(out@ =~= before + leaf_bytes(sorted[j as int]));
                lemma_emit_push(sorted.take(j as int), sorted[j as int]);
                assert(sorted.take(j as int).push(sorted[j as int]) =~= sorted.take(j + 1));
            }
            j = j + 1;
        }
        assert(sorted.take(order@.len() as int) =~= sorted);
        out
    }
}

/// A five-digit mode widened to the canonical six-digit form.
pub open spec fn pad6(m: Seq<u8>) -> Seq<u8> {
    if m.len() == 5 {
        seq![48u8] + m
    } else {
        m
    }
}

/// Parse of one leading record: the entry it holds and the bytes it
/// consumes. The mode is a run of five or six digits up to the first
/// space, the name runs to the next NUL, and exactly twenty id bytes
/// follow.
pub open spec fn parse_one_spec(b: Seq<u8>) -> Option<(LeafView, int)> {
    match find_byte(b, 32u8) {
        None => None,
        Some(msp) => {
            if msp < 5 || msp > 6 || !all_digits(b.take(msp)) {
                None
            } else {
                match find_byte(b.skip(msp + 1), 0u8) {
                    None => None,
                    Some(poff) => {
                        let consumed = msp + 1 + poff + 1 + 20;
                        if b.len() < consumed {
                            None
                        } else {
                            Some(
                                (
                                    LeafView {
                                        mode: pad6(b.take(msp)),
                                        path: b.subrange(msp + 1, msp + 1 + poff),
                                        sha_hash: hex_of(
                                            b.subrange(msp + 2 + poff, msp + 2 + poff + 20),
                                        ),
                                    },
                                    consumed,
                                ),
                            )
                        }
                    },
                }
            }
        },
    }
}

/// Parse of a whole tree payload: records until the bytes run out.
pub open spec fn tree_parse_spec(b: Seq<u8>) -> Option<Seq<LeafView>>
    decreases b.len(),
{
    if b.len() == 0 {
        Some(Seq::empty())
    } else {
        match parse_one_spec(b) {
            None => None,
            Some((l, c)) => {
                if c < 1 || c > b.len() {
                    None
                } else {
                    match tree_parse_spec(b.skip(c)) {
                        None => None,
                        Some(rest) => Some(seq![l] + rest),
                    }
                }
            },
        }
    }
}

/// Parse one record of a tree payload, starting at `index`.
///
/// Returns the entry and the index just past its record; fails with
/// `InvalidFormat` exactly when no record starts there: no space, a mode
/// run that is not five or six digits, no NUL behind the name, or fewer
/// than twenty id bytes left.
pub fn tree_parse_one(bytes: &Vec<u8>, index: usize) -> (r: Result<(GitTreeLeaf, usize), Error>)
    requires
        index <= bytes@.len(),
    ensures
        match r {
            Ok((l, nx)) => {
                &&& parse_one_spec(bytes@.skip(index as int)) == Some((l@, nx - index))
                &&& index < nx <= bytes@.len()
                &&& leaf_wf(l@)
            },
            Err(e) => parse_one_spec(bytes@.skip(index as int)) is None && e
                == Error::InvalidFormat,
        },
{
    let ghost g = bytes@.skip(index as int);
    let n = bytes.len();

    let mut sp: usize = index;
    while sp < n && bytes[sp as usize] != 32
        invariant
            index <= sp <= n,
            n == bytes@.len(),
            forall|j: int| index <= j < sp ==> #[trigger] bytes@[j] != 32,
        decreases n - sp,
    {
        sp = sp + 1;
    }
    if sp == n {
        proof {
            lemma_find_byte(g, 32);
            if find_byte(g, 32) is Some {
                let i = find_byte(g, 32)->Some_0;
                assert(bytes@[index + i] == g[i]);
            }
        }
        return Err(Error::InvalidFormat);
    }
    proof {
        assert(g[sp - index] == bytes@[sp as int]);
        assert forall|j: int| 0 <= j < sp - index implies #[trigger] g[j] != 32 by {
            assert(g[j] == bytes@[index + j]);
        }
        lemma_find_byte_is(g, 32, sp - index);
    }
    let msp = sp - index;
    if msp < 5 || msp > 6 {
        return Err(Error::InvalidFormat);
    }
    let mut dj: usize = index;
    while dj < sp
        invariant
            index <= dj <= sp < n,
            n == bytes@.len(),
            5 <= msp <= 6,
            msp == sp - index,
            g == bytes@.skip(index as int),
            find_byte(g, 32u8) == Some(msp as int),
            forall|j: int| index <= j < dj ==> is_ascii_digit(#[trigger] bytes@[j]),
        decreases sp - dj,
    {
        let b = bytes[dj];
        if b < 48 || b > 57 {
            proof {
                assert(g[dj - index] == bytes@[index + (dj - index)]);
                assert(g.take(msp as int)[dj - index] == g[dj - index]);
                assert(!is_ascii_digit(g.take(msp as int)[dj - index]));
                assert(!all_digits(g.take(msp as int)));
            }
            return Err(Error::InvalidFormat);
        }
        dj = dj + 1;
    }
    assert(all_digits(g.take(msp as int))) by {
        assert forall|j: int| 0 <= j < msp implies is_ascii_digit(
            #[trigger] g.take(msp as int)[j],
        ) by {
            assert(g.take(msp as int)[j] == bytes@[index + j]);
        }
    }

    let mut nl: usize = sp + 1;
    while nl < n && bytes[nl as usize] != 0
        invariant
            sp + 1 <= nl <= n,
            n == bytes@.len(),
            forall|j: int| sp + 1 <= j < nl ==> #[trigger] bytes@[j] != 0,
        decreases n - nl,
    {
        nl = nl + 1;
    }
    let ghost g2 = g.skip(msp + 1);
    proof {
        assert(g2 =~= bytes@.skip(sp + 1));
    }
    if nl == n {
        proof {
            lemma_find_byte(g2, 0);
            if find_byte(g2, 0) is Some {
                let i = find_byte(g2, 0)->Some_0;
                assert(bytes@[sp + 1 + i] == g2[i]);
            }
        }
        return Err(Error::InvalidFormat);
    }
    proof {
        assert(g2[nl - sp - 1] == bytes@[nl as int]);
        assert forall|j: int| 0 <= j < nl - sp - 1 implies #[trigger] g2[j] != 0 by {
            assert(g2[j] == bytes@[sp + 1 + j]);
        }
        lemma_find_byte_is(g2, 0, nl - sp - 1);
    }
    let ghost poff = nl - sp - 1;

    if n - nl - 1 < 20 {
        assert(g.len() < msp + 1 + poff + 1 + 20);
        return Err(Error::InvalidFormat);
    }

    let mut mode: Vec<u8> = Vec::new();
    if msp == 5 {
        mode.push(48);
    }
    push_range(&mut mode, bytes, index, sp);
    proof {
        assert(bytes@.subrange(index as int, sp as int) =~= g.take(msp as int));
        assert(mode@ =~= pad6(g.take(msp as int)));
    }

    let mut path: Vec<u8> = Vec::new();
    push_range(&mut path, bytes, sp + 1, nl);
    proof {
        assert(path@ =~= g.subrange(msp + 1, msp + 1 + poff));
    }

    let mut id_bytes: Vec<u8> = Vec::new();
    push_range(&mut id_bytes, bytes, nl + 1, nl + 21);
    proof {
        assert(id_bytes@ =~= g.subrange(msp + 2 + poff, msp + 2 + poff + 20));
    }
    let sha_hash = hex_encode(&id_bytes);
    proof {
        lemma_hex_of_unhex(id_bytes@);
    }

    let leaf = GitTreeLeaf { mode, path, sha_hash };
    let nx = nl + 21;
    proof {
        assert(leaf_wf(leaf@)) by {
            assert forall|i: int| 0 <= i < leaf@.path.len() implies leaf@.path[i] != 0 by {
                assert(leaf@.path[i] == bytes@[sp + 1 + i]);
            }
        }
        assert(parse_one_spec(g) == Some((leaf@, (nx - index) as int)));
    }
    Ok((leaf, nx))
}

/// The views of a sequence of owned entries.
pub open spec fn leaves_views(s: Seq<GitTreeLeaf>) -> Seq<LeafView> {
    s.map_values(|l: GitTreeLeaf| l@)
}

/// Parse a whole tree payload into its entries, in stored order.
///
/// Fails with `InvalidFormat` exactly when some record is malformed.
/// Every entry returned is well formed.
pub fn tree_parse(bytes: &Vec<u8>) -> (r: Result<Vec<GitTreeLeaf>, Error>)
    ensures
        match r {
            Ok(v) => tree_parse_spec(bytes@) == Some(leaves_views(v@)) && tree_wf(
                leaves_views(v@),
            ),
            Err(e) => tree_parse_spec(bytes@) is None && e == Error::InvalidFormat,
        },
{
    let n = bytes.len();
    let mut result: Vec<GitTreeLeaf> = Vec::new();
    let mut idx: usize = 0;
    proof {
        assert(bytes@.skip(0) =~= bytes@);
        assert(leaves_views(result@) =~= Seq::<LeafView>::empty());
        if tree_parse_spec(bytes@) is Some {
            let rest = tree_parse_spec(bytes@)->Some_0;
            assert(leaves_views(result@) + rest =~= rest);
        }
    }
    while idx < n
        invariant
            0 <= idx <= n,
            n == bytes@.len(),
            tree_wf(leaves_views(result@)),
            match tree_parse_spec(bytes@.skip(idx as int)) {
                Some(rest) => tree_parse_spec(bytes@) == Some(leaves_views(result@) + rest),
                None => tree_parse_spec(bytes@) is None,
            },
        decreases n - idx,
    {
        let ghost old_views = leaves_views(result@);
        match tree_parse_one(bytes, idx) {
            Ok((leaf, nx)) => {
                proof {
                    assert(bytes@.skip(idx as int).skip((nx - idx) as int) =~= bytes@.skip(
                        nx as int,
                    ));
                }
                result.push(leaf);
                proof {
                    assert(leaves_views(result@) =~= old_views.push(leaf@));
                    match tree_parse_spec(bytes@.skip(nx as int)) {
                        Some(rest) => {
                            assert(tree_parse_spec(bytes@.skip(idx as int)) == Some(
                                seq![leaf@] + rest,
                            ));
                            assert(old_views.push(leaf@) + rest =~= old_views + (seq![leaf@]
                                + rest));
                        },
                        None => {
                            assert(tree_parse_spec(bytes@.skip(idx as int)) is None);
                        },
                    }
                }
                idx = nx;
            },
            Err(e) => {
                assert(bytes@.skip(idx as int).len() > 0);
                return Err(e);
            },
        }
    }
    proof {
        assert(bytes@.skip(idx as int) =~= Seq::<u8>::empty());
        assert(tree_parse_spec(bytes@.skip(idx as int)) == Some(Seq::<LeafView>::empty()));
        assert(leaves_views(result@) + Seq::<LeafView>::empty() =~= leaves_views(result@));
    }
    Ok(result)
}

impl GitTree {
    /// Replace the tree's entries with those parsed from a payload.
    ///
    /// On failure the tree is left as it was.
    pub fn deserialize(&mut self, data: &Vec<u8>) -> (r: Result<(), Error>)
        ensures
            match r {
                Ok(()) => tree_parse_spec(data@) == Some(final(self)@) && tree_wf(final(self)@),
                Err(e) => tree_parse_spec(data@) is None && e == Error::InvalidFormat
                    && final(self)@ == old(self)@,
            },
    {
        match tree_parse(data) {
            Ok(v) => {
                self.leaves = v;
                Ok(())
            },
            Err(e) => Err(e),
        }
    }
}

/// No two entries share a canonical key.
pub open spec fn distinct_keys(s: Seq<LeafView>) -> bool {
    forall|i: int, j: int|
        #![trigger key_of(s[i]), key_of(s[j])]
        0 <= i < j < s.len() ==> key_of(s[i]) != key_of(s[j])
}

/// Key distinctness is a property of the entries alone, so it carries
/// over to any rearrangement of them.
proof fn lemma_distinct_keys_transfer(a: Seq<LeafView>, b: Seq<LeafView>)
    requires
        a.to_multiset() == b.to_multiset(),
        distinct_keys(a),
    ensures
        distinct_keys(b),
{
    broadcast use vstd::seq_lib::group_to_multiset_ensures;
    broadcast use vstd::multiset::group_multiset_axioms;

    assert forall|i: int, j: int|
        #![trigger key_of(b[i]), key_of(b[j])]
        0 <= i < j < b.len() implies key_of(b[i]) != key_of(b[j]) by {
        if key_of(b[i]) == key_of(b[j]) {
            if b[i] == b[j] {
                let x = b[i];
                assert(b.remove(i).to_multiset() =~= b.to_multiset().remove(x));
                assert(b.remove(i)[j - 1] == x);
                assert(b.remove(i).contains(x));
                assert(b.remove(i).to_multiset().count(x) > 0);
                assert(b.to_multiset().remove(x).count(x) > 0);
                assert(b.to_multiset().count(x) >= 2);
                assert(a.to_multiset().count(x) >= 2);
                assert(a.contains(x));
                let k1 = choose|k: int| 0 <= k < a.len() && a[k] == x;
                assert(a.remove(k1).to_multiset() =~= a.to_multiset().remove(x));
                assert(a.remove(k1).to_multiset().count(x) >= 1);
                assert(a.remove(k1).contains(x));
                let k2 = choose|k: int| 0 <= k < a.remove(k1).len() && a.remove(k1)[k] == x;
                let k3 = if k2 < k1 {
                    k2
                } else {
                    k2 + 1
                };
                assert(a[k3] == x);
                assert(key_of(a[k1]) == key_of(a[k3]));
                assert(false);
            } else {
                assert(b.to_multiset().count(b[i]) > 0);
                assert(b.to_multiset().count(b[j]) > 0);
                assert(a.to_multiset().count(b[i]) > 0);
                assert(a.to_multiset().count(b[j]) > 0);
                assert(a.contains(b[i]) && a.contains(b[j]));
                let k1 = choose|k: int| 0 <= k < a.len() && a[k] == b[i];
                let k2 = choose|k: int| 0 <= k < a.len() && a[k] == b[j];
                assert(k1 != k2);
                assert(key_of(a[k1]) == key_of(a[k2]));
                assert(false);
            }
        }
    }
}

/// Two sorted sequences holding the same entries, with no two entries
/// sharing a key, are the same sequence.
proof fn lemma_sorted_unique(a: Seq<LeafView>, b: Seq<LeafView>)
    requires
        sorted_by(a, leaf_order()),
        sorted_by(b, leaf_order()),
        a.to_multiset() == b.to_multiset(),
        distinct_keys(a),
    ensures
        a == b,
    decreases a.len(),
{
    broadcast use vstd::seq_lib::group_to_multiset_ensures;
    broadcast use vstd::multiset::group_multiset_axioms;

    assert(a.len() == a.to_multiset().len());
    assert(b.len() == b.to_multiset().len());
    if a.len() == 0 {
        assert(a =~= b);
    } else {
        assert(a.contains(a[0]));
        assert(a.to_multiset().count(a[0]) > 0);
        assert(b.to_multiset().count(a[0]) > 0);
        assert(b.contains(a[0]));
        let ib = choose|k: int| 0 <= k < b.len() && b[k] == a[0];
        assert(b.contains(b[0]));
        assert(b.to_multiset().count(b[0]) > 0);
        assert(a.to_multiset().count(b[0]) > 0);
        assert(a.contains(b[0]));
        let ia = choose|k: int| 0 <= k < a.len() && a[k] == b[0];
        assert(leaf_leq(b[0], a[0])) by {
            if ib > 0 {
                assert(leaf_order()(b[0], b[ib]));
            } else {
                lemma_lex_total(key_of(b[0]), key_of(a[0]));
                if !lex_leq(key_of(b[0]), key_of(a[0])) {
                    assert(b[0] == a[0]);
                }
            }
        }
        assert(leaf_leq(a[0], b[0])) by {
            if ia > 0 {
                assert(leaf_order()(a[0], a[ia]));
            } else {
                lemma_lex_total(key_of(a[0]), key_of(b[0]));
                if !lex_leq(key_of(a[0]), key_of(b[0])) {
                    assert(a[0] == b[0]);
                }
            }
        }
        lemma_lex_antisymmetric(key_of(a[0]), key_of(b[0]));
        assert(a[0] == b[0]) by {
            // b[0] sits in a at ia with the same key as a[0]
            assert(key_of(a[ia]) == key_of(a[0]));
            if ia > 0 {
                assert(key_of(a[0]) != key_of(a[ia]));
            }
        }
        let a1 = a.drop_first();
        let b1 = b.drop_first();
        assert(sorted_by(a1, leaf_order())) by {
            assert forall|i: int, j: int| 0 <= i < j < a1.len() implies leaf_order()(
                a1[i],
                a1[j],
            ) by {
                assert(a1[i] == a[i + 1] && a1[j] == a[j + 1]);
            }
        }
        assert(sorted_by(b1, leaf_order())) by {
            assert forall|i: int, j: int| 0 <= i < j < b1.len() implies leaf_order()(
                b1[i],
                b1[j],
            ) by {
                assert(b1[i] == b[i + 1] && b1[j] == b[j + 1]);
            }
        }
        assert(distinct_keys(a1)) by {
            assert forall|i: int, j: int|
                #![trigger key_of(a1[i]), key_of(a1[j])]
                0 <= i < j < a1.len() implies key_of(a1[i]) != key_of(a1[j]) by {
                assert(a1[i] == a[i + 1] && a1[j] == a[j + 1]);
            }
        }
        assert(a1.to_multiset() == b1.to_multiset()) by {
            assert(a.remove(0) =~= a1);
            assert(b.remove(0) =~= b1);
            assert(a.remove(0).to_multiset() =~= a.to_multiset().remove(a[0]));
            assert(b.remove(0).to_multiset() =~= b.to_multiset().remove(b[0]));
        }
        lemma_sorted_unique(a1, b1);
        assert forall|i: int| 0 <= i < a.len() implies a[i] == b[i] by {
            if i > 0 {
                assert(a[i] == a1[i - 1]);
                assert(b[i] == b1[i - 1]);
            }
        }
        assert(a =~= b);
    }
}

/// One serialized record parses back to its entry, whatever follows it.
proof fn lemma_parse_one_of_emit(l: LeafView, rest: Seq<u8>)
    requires
        leaf_wf(l),
    ensures
        leaf_bytes(l).len() >= 27,
        parse_one_spec(leaf_bytes(l) + rest) == Some((l, leaf_bytes(l).len() as int)),
{
    let mt = mode_trimmed(l.mode);
    let msp = mt.len() as int;
    let plen = l.path.len() as int;
    let b = leaf_bytes(l) + rest;
    lemma_unhex_hex_of(l.sha_hash);
    assert(unhex(l.sha_hash).len() == 20);

    assert(all_digits(mt) && 5 <= msp <= 6) by {
        if l.mode.len() > 0 && l.mode[0] == 48 {
            assert forall|i: int| 0 <= i < mt.len() implies is_ascii_digit(#[trigger] mt[i]) by {
                assert(mt[i] == l.mode[i + 1]);
            }
        }
    }

    assert(b[msp] == 32);
    assert forall|j: int| 0 <= j < msp implies #[trigger] b[j] != 32 by {
        assert(b[j] == mt[j]);
        assert(is_ascii_digit(mt[j]));
    }
    lemma_find_byte_is(b, 32, msp);
    assert(b.take(msp) =~= mt);

    let s2 = b.skip(msp + 1);
    assert(s2[plen] == b[msp + 1 + plen]);
    assert(b[msp + 1 + plen] == 0);
    assert forall|j: int| 0 <= j < plen implies #[trigger] s2[j] != 0 by {
        assert(s2[j] == b[msp + 1 + j]);
        assert(b[msp + 1 + j] == l.path[j]);
    }
    lemma_find_byte_is(s2, 0, plen);

    assert(pad6(b.take(msp)) == l.mode) by {
        if l.mode.len() > 0 && l.mode[0] == 48 {
            assert(pad6(mt) =~= l.mode);
        } else {
            assert(pad6(mt) =~= l.mode);
        }
    }
    assert(b.subrange(msp + 1, msp + 1 + plen) =~= l.path);
    assert(b.subrange(msp + 2 + plen, msp + 2 + plen + 20) =~= unhex(l.sha_hash));
}

/// A serialized entry sequence parses back to exactly that sequence.
proof fn lemma_tree_parse_emit(s: Seq<LeafView>)
    requires
        tree_wf(s),
    ensures
        tree_parse_spec(emit_leaves(s)) == Some(s),
    decreases s.len(),
{
    if s.len() == 0 {
        assert(emit_leaves(s).len() == 0);
        assert(tree_parse_spec(emit_leaves(s)) == Some(Seq::<LeafView>::empty()));
        assert(Seq::<LeafView>::empty() =~= s);
    } else {
        let x = s.first();
        let t = s.drop_first();
        let b = emit_leaves(s);
        assert(b == leaf_bytes(x) + emit_leaves(t));
        lemma_parse_one_of_emit(x, emit_leaves(t));
        let c = leaf_bytes(x).len() as int;
        assert(b.len() >= c >= 1);
        assert(b.skip(c) =~= emit_leaves(t));
        assert(tree_wf(t)) by {
            assert forall|i: int| 0 <= i < t.len() implies leaf_wf(#[trigger] t[i]) by {
                assert(t[i] == s[i + 1]);
            }
        }
        lemma_tree_parse_emit(t);
        assert(tree_parse_spec(b) == Some(seq![x] + t));
        assert(seq![x] + t =~= s);
    }
}

/// LAW: parsing a serialized tree yields exactly its entries, in
/// canonical order — the same entries that went in, sorted.
pub proof fn lemma_tree_round_trip(s: Seq<LeafView>)
    requires
        tree_wf(s),
    ensures
        tree_parse_spec(tree_ser_spec(s)) == Some(sort_leaves_spec(s)),
        sort_leaves_spec(s).to_multiset() == s.to_multiset(),
{
    broadcast use vstd::seq_lib::group_to_multiset_ensures;

    lemma_sort_leaves(s);
    let sorted = sort_leaves_spec(s);
    assert(tree_wf(sorted)) by {
        assert forall|i: int| 0 <= i < sorted.len() implies leaf_wf(#[trigger] sorted[i]) by {
            assert(sorted.contains(sorted[i]));
            assert(sorted.to_multiset().count(sorted[i]) > 0);
            assert(s.to_multiset().count(sorted[i]) > 0);
            assert(s.contains(sorted[i]));
            let k = choose|k: int| 0 <= k < s.len() && s[k] == sorted[i];
            assert(leaf_wf(s[k]));
        }
    }
    lemma_tree_parse_emit(sorted);
}

/// LAW: a tree built from the same entries, presented in any order,
/// serializes to identical bytes — and therefore to the identical id —
/// as long as no two entries share a canonical key.
pub proof fn lemma_tree_order_independence(u: Seq<LeafView>, v: Seq<LeafView>)
    requires
        u.to_multiset() == v.to_multiset(),
        distinct_keys(u),
    ensures
        tree_ser_spec(u) == tree_ser_spec(v),
{
    lemma_sort_leaves(u);
    lemma_sort_leaves(v);
    lemma_distinct_keys_transfer(u, sort_leaves_spec(u));
    lemma_sorted_unique(sort_leaves_spec(u), sort_leaves_spec(v));
}

} // verus!
