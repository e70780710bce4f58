//! The binary codec for snapshot diffs.
//!
//! A diff is packed as: 8 bytes of parent id (big-endian, zero meaning
//! no parent), the added tokens (16 bytes each, any order), and, only
//! when there are removed tokens, an 8-byte all-zero sentinel followed
//! by the removed tokens.  No length or count fields are stored: the
//! decoder relies on no real token beginning with 8 zero bytes.

use vstd::prelude::*;
use std::sync::Arc;
use crate::endian::{
    spec_u64_to_be_bytes, spec_u64_from_be_bytes, push_u64_be, read_u64_be,
    lemma_u64_be_round_trip, lemma_u64_be_zero,
};
use crate::error::Error;

verus! {

/// One state item reference: a fixed-width 16-byte opaque identifier.
/// The surrounding system guarantees (and this layer assumes) that the
/// first 8 bytes of a real token are never all zero, since that value
/// is reserved as the region separator of the wire format.
pub struct Token {
    pub bytes: Vec<u8>,
}

impl View for Token {
    type V = Seq<u8>;

    open spec fn view(&self) -> Seq<u8> {
        self.bytes@
    }
}

/// A token is well formed when it has exactly 16 bytes.
pub open spec fn token_wf(t: Token) -> bool {
    t@.len() == 16
}

/// Every token of `ts` is well formed.
pub open spec fn tokens_wf(ts: Seq<Token>) -> bool {
    forall|i: int| 0 <= i < ts.len() ==> token_wf(#[trigger] ts[i])
}

/// Every byte of `s` is zero.
pub open spec fn all_zero(s: Seq<u8>) -> bool {
    forall|i: int| 0 <= i < s.len() ==> s[i] == 0
}

/// No token of `ts` starts with 8 zero bytes, so none can be mistaken
/// for the region separator.
pub open spec fn no_sentinel_prefix(ts: Seq<Token>) -> bool {
    forall|i: int| 0 <= i < ts.len() ==> !all_zero(#[trigger] ts[i]@.take(8))
}

/// The 8-byte all-zero region separator.
pub open spec fn zero_marker() -> Seq<u8> {
    Seq::new(8, |i: int| 0u8)
}

/// The set of byte strings held by the tokens of `ts`.
pub open spec fn tokens_set(ts: Seq<Token>) -> Set<Seq<u8>>
    decreases ts.len(),
{
    if ts.len() == 0 {
        Set::empty()
    } else {
        tokens_set(ts.drop_first()).insert(ts.first()@)
    }
}

/// The tokens of `ts` laid out one after another, 16 bytes each.
pub open spec fn tokens_bytes(ts: Seq<Token>) -> Seq<u8>
    decreases ts.len(),
{
    if ts.len() == 0 {
        Seq::empty()
    } else {
        ts.first()@ + tokens_bytes(ts.drop_first())
    }
}

/// One snapshot's delta against its optional parent snapshot: the
/// tokens it adds and the tokens it removes.  The sets are unordered;
/// membership, not order, is the observable contract, and they are
/// held behind shared references so several holders of one diff can
/// read them without copying.
pub struct StateDiff {
    /// Parent snapshot id; `None` for a root snapshot.  Id 0 is
    /// reserved on the wire to mean "no parent" and is never assigned
    /// to a real snapshot.
    pub parent: Option<u64>,
    /// Tokens present in this snapshot but absent from the parent.
    pub added: Arc<Vec<Token>>,
    /// Tokens present in the parent but absent from this snapshot.
    pub removed: Arc<Vec<Token>>,
}

impl StateDiff {
    /// All tokens carried by the diff are well formed.
    pub open spec fn wf(self) -> bool {
        tokens_wf(self.added@) && tokens_wf(self.removed@)
    }

    /// The parent id as stored on the wire: 0 stands for "no parent".
    pub open spec fn parent_raw(self) -> u64 {
        match self.parent {
            Some(p) => p,
            None => 0u64,
        }
    }

    /// The added tokens as a set of byte strings.
    pub open spec fn added_set(self) -> Set<Seq<u8>> {
        tokens_set(self.added@)
    }

    /// The removed tokens as a set of byte strings.
    pub open spec fn removed_set(self) -> Set<Seq<u8>> {
        tokens_set(self.removed@)
    }
}

/// The exact bytes that `encode` produces for `diff`.
pub open spec fn spec_encode(diff: StateDiff) -> Seq<u8> {
    spec_u64_to_be_bytes(diff.parent_raw()) + tokens_bytes(diff.added@) + (
    if diff.removed@.len() > 0 {
        zero_marker() + tokens_bytes(diff.removed@)
    } else {
        Seq::<u8>::empty()
    })
}

/// The parent field read back from an encoded blob.
pub open spec fn spec_parent_of(bytes: Seq<u8>) -> Option<u64>
    recommends
        bytes.len() >= 8,
{
    let raw = spec_u64_from_be_bytes(bytes.take(8));
    if raw == 0 {
        None
    } else {
        Some(raw)
    }
}

/// The decoder's scan over the token region: 16-byte windows are read
/// while one fully fits; in adding mode a window whose first 8 bytes
/// are zero is the separator and advances the cursor by 8 only; a
/// trailing remainder shorter than 16 bytes is discarded.  Returns the
/// (added, removed) sets of byte strings.
pub open spec fn spec_scan(rest: Seq<u8>, adding: bool) -> (Set<Seq<u8>>, Set<Seq<u8>>)
    decreases rest.len(),
{
    if rest.len() < 16 {
        (Set::empty(), Set::empty())
    } else if adding && all_zero(rest.take(8)) {
        spec_scan(rest.skip(8), false)
    } else {
        let tail = spec_scan(rest.skip(16), adding);
        if adding {
            (tail.0.insert(rest.take(16)), tail.1)
        } else {
            (tail.0, tail.1.insert(rest.take(16)))
        }
    }
}

/// The added set a decoder reads from `bytes`.
pub open spec fn spec_added_of(bytes: Seq<u8>) -> Set<Seq<u8>> {
    spec_scan(bytes.skip(8), true).0
}

/// The removed set a decoder reads from `bytes`.
pub open spec fn spec_removed_of(bytes: Seq<u8>) -> Set<Seq<u8>> {
    spec_scan(bytes.skip(8), true).1
}

/// `diff` is exactly what decoding `bytes` yields: the parent field
/// read from the first 8 bytes and the two token sets read by the
/// scan, with every token well formed.
pub open spec fn decodes_to(bytes: Seq<u8>, diff: StateDiff) -> bool {
    &&& diff.wf()
    &&& diff.parent == spec_parent_of(bytes)
    &&& diff.parent != Some(0u64)
    &&& diff.added_set() == spec_added_of(bytes)
    &&& diff.removed_set() == spec_removed_of(bytes)
}

/// Appends the 16 bytes of `t` to `out`.
fn append_token(out: &mut Vec<u8>, t: &Token)
    requires
        token_wf(*t),
    ensures
        final(out)@ == old(out)@ + t@,
{
    let mut j: usize = 0;
    while j < 16
        invariant
            j <= 16,
            token_wf(*t),
            out@ == old(out)@ + t@.take(j as int),
        decreases 16 - j,
    {
        out.push(t.bytes[j]);
        proof {
            assert(out@ =~= old(out)@ + t@.take(j as int + 1));
        }
        j += 1;
    }
    proof {
        assert(t@.take(16) =~= t@);
    }
}

/// Appends the tokens of `ts`, 16 bytes each, to `out`.
fn append_tokens(out: &mut Vec<u8>, ts: &Vec<Token>)
    requires
        tokens_wf(ts@),
    ensures
        final(out)@ == old(out)@ + tokens_bytes(ts@),
{
    let mut k: usize = 0;
    while k < ts.len()
        invariant
            k <= ts@.len(),
            tokens_wf(ts@),
            out@ == old(out)@ + tokens_bytes(ts@.take(k as int)),
        decreases ts@.len() - k,
    {
        append_token(out, &ts[k]);
        proof {
            assert(ts@.take(k as int + 1) =~= ts@.take(k as int).push(ts@[k as int]));
            lemma_tokens_bytes_push(ts@.take(k as int), ts@[k as int]);
            assert(out@ =~= old(out)@ + tokens_bytes(ts@.take(k as int + 1)));
        }
        k += 1;
    }
    proof {
        assert(ts@.take(ts@.len() as int) =~= ts@);
    }
}

/// Encodes `diff` into its wire representation: the parent id in 8
/// big-endian bytes (0 when there is no parent), the added tokens, and
/// — only when some tokens are removed — the 8-byte zero separator
/// followed by the removed tokens.
pub fn encode(diff: &StateDiff) -> (r: Vec<u8>)
    requires
        diff.wf(),
    ensures
        r@ == spec_encode(*diff),
{
    let mut value: Vec<u8> = Vec::new();
    let parent_raw: u64 = match diff.parent {
        Some(p) => p,
        None => 0,
    };
    push_u64_be(&mut value, parent_raw);
    append_tokens(&mut value, &diff.added);
    if diff.removed.len() > 0 {
        push_u64_be(&mut value, 0);
        proof {
            lemma_u64_be_zero(0u64);
            assert(spec_u64_to_be_bytes(0u64) =~= zero_marker());
        }
        append_tokens(&mut value, &diff.removed);
    }
    proof {
        assert(value@ =~= spec_encode(*diff));
    }
    value
}

/// True exactly when the 8 bytes of `v` at `off` are all zero.
fn is_zero_run(v: &Vec<u8>, off: usize) -> (b: bool)
    requires
        off + 8 <= v@.len(),
    ensures
        b == all_zero(v@.subrange(off as int, off as int + 8)),
{
    let n = v.len();
    let mut j: usize = 0;
    while j < 8
        invariant
            j <= 8,
            off + 8 <= n,
            n == v@.len(),
            forall|k: int| 0 <= k < j ==> #[trigger] v@[off + k] == 0,
        decreases 8 - j,
    {
        if v[off + j] != 0 {
            proof {
                assert(v@.subrange(off as int, off as int + 8)[j as int] != 0);
            }
            return false;
        }
        j += 1;
    }
    proof {
        assert forall|i: int| 0 <= i < 8 implies #[trigger] v@.subrange(off as int, off as int
            + 8)[i] == 0 by {
            assert(v@[off + i] == 0);
        }
    }
    true
}

/// Copies the 16 bytes of `v` at `off` into a fresh token.
fn read_token(v: &Vec<u8>, off: usize) -> (t: Token)
    requires
        off + 16 <= v@.len(),
    ensures
        t@ == v@.subrange(off as int, off as int + 16),
        token_wf(t),
{
    let n = v.len();
    let mut bytes: Vec<u8> = Vec::new();
    let mut j: usize = 0;
    while j < 16
        invariant
            j <= 16,
            off + 16 <= n,
            n == v@.len(),
            bytes@ == v@.subrange(off as int, off as int + j as int),
        decreases 16 - j,
    {
        bytes.push(v[off + j]);
        proof {
            assert(bytes@ =~= v@.subrange(off as int, off as int + j as int + 1));
        }
        j += 1;
    }
    Token { bytes }
}

/// Decodes a blob back into a diff.  Fails only when fewer than 8
/// bytes are present; past the parent field, 16-byte windows are read
/// while one fully fits, an all-zero upper half in adding mode is the
/// separator (advancing by 8 to re-align on token boundaries), and a
/// trailing remainder shorter than 16 bytes is silently discarded.
pub fn decode(value: &Vec<u8>) -> (r: Result<StateDiff, Error>)
    ensures
        match r {
            Ok(diff) => value@.len() >= 8 && decodes_to(value@, diff),
            Err(e) => value@.len() < 8 && e == Error::Malformed,
        },
{
    let n = value.len();
    if n < 8 {
        return Err(Error::Malformed);
    }
    let parent_raw = read_u64_be(value, 0);
    let parent = if parent_raw != 0 {
        Some(parent_raw)
    } else {
        None
    };
    proof {
        assert(value@.subrange(0, 8) =~= value@.take(8));
    }

    let mut add_mode = true;
    let mut added: Vec<Token> = Vec::new();
    let mut removed: Vec<Token> = Vec::new();

    let mut i: usize = 8;
    while n - i >= 16
        invariant
            8 <= i <= n,
            n == value@.len(),
            tokens_wf(added@),
            tokens_wf(removed@),
            spec_added_of(value@) == tokens_set(added@).union(
                spec_scan(value@.skip(i as int), add_mode).0,
            ),
            spec_removed_of(value@) == tokens_set(removed@).union(
                spec_scan(value@.skip(i as int), add_mode).1,
            ),
        decreases n - i,
    {
        let ghost rest = value@.skip(i as int);
        proof {
            assert(rest.len() == n - i >= 16);
            assert(rest.take(8) =~= value@.subrange(i as int, i as int + 8));
            assert(rest.take(16) =~= value@.subrange(i as int, i as int + 16));
        }
        if add_mode && is_zero_run(value, i) {
            proof {
                assert(rest.skip(8) =~= value@.skip(i as int + 8));
                assert(spec_scan(rest, true) == spec_scan(value@.skip(i as int + 8), false));
            }
            add_mode = false;
            i += 8;
            continue;
        }
        let t = read_token(value, i);
        proof {
            assert(t@ == rest.take(16));
            let tail = spec_scan(value@.skip(i as int + 16), add_mode);
            assert(rest.skip(16) =~= value@.skip(i as int + 16));
            if add_mode {
                assert(spec_scan(rest, true) == (tail.0.insert(t@), tail.1));
                lemma_tokens_set_push(added@, t);
                assert(tokens_set(added@).union(tail.0.insert(t@)) =~= tokens_set(
                    added@.push(t),
                ).union(tail.0));
            } else {
                assert(spec_scan(rest, false) == (tail.0, tail.1.insert(t@)));
                lemma_tokens_set_push(removed@, t);
                assert(tokens_set(removed@).union(tail.1.insert(t@)) =~= tokens_set(
                    removed@.push(t),
                ).union(tail.1));
            }
        }
        if add_mode {
            added.push(t);
        } else {
            removed.push(t);
        }
        i += 16;
    }
    proof {
        assert(value@.skip(i as int).len() < 16);
        assert(spec_added_of(value@) =~= tokens_set(added@));
        assert(spec_removed_of(value@) =~= tokens_set(removed@));
    }
    Ok(StateDiff { parent, added: Arc::new(added), removed: Arc::new(removed) })
}

/// Pushing a token adds its byte string to the token set.
proof fn lemma_tokens_set_push(ts: Seq<Token>, t: Token)
    ensures
        tokens_set(ts.push(t)) == tokens_set(ts).insert(t@),
    decreases ts.len(),
{
    if ts.len() == 0 {
        assert(ts.push(t).drop_first() =~= Seq::<Token>::empty());
        assert(ts.push(t).first() == t);
        assert(tokens_set(ts.push(t)) == tokens_set(Seq::<Token>::empty()).insert(t@));
        assert(tokens_set(ts.push(t)) =~= tokens_set(ts).insert(t@));
    } else {
        assert(ts.push(t).drop_first() =~= ts.drop_first().push(t));
        assert(ts.push(t).first() == ts.first());
        lemma_tokens_set_push(ts.drop_first(), t);
        assert(tokens_set(ts.push(t)) == tokens_set(ts.drop_first()).insert(t@).insert(
            ts.first()@,
        ));
        assert(tokens_set(ts.drop_first()).insert(t@).insert(ts.first()@) =~= tokens_set(
            ts.drop_first(),
        ).insert(ts.first()@).insert(t@));
        assert(tokens_set(ts.push(t)) =~= tokens_set(ts).insert(t@));
    }
}

/// Appending a token extends the laid-out bytes by its 16 bytes.
proof fn lemma_tokens_bytes_push(ts: Seq<Token>, t: Token)
    ensures
        tokens_bytes(ts.push(t)) == tokens_bytes(ts) + t@,
    decreases ts.len(),
{
    if ts.len() == 0 {
        assert(ts.push(t).drop_first() =~= Seq::<Token>::empty());
        assert(ts.push(t).first() == t);
        assert(tokens_bytes(ts.push(t)) == t@ + tokens_bytes(Seq::<Token>::empty()));
        assert(tokens_bytes(ts.push(t)) =~= tokens_bytes(ts) + t@);
    } else {
        assert(ts.push(t).drop_first() =~= ts.drop_first().push(t));
        assert(ts.push(t).first() == ts.first());
        lemma_tokens_bytes_push(ts.drop_first(), t);
        assert(tokens_bytes(ts.push(t)) == ts.first()@ + (tokens_bytes(ts.drop_first()) + t@));
        assert(ts.first()@ + (tokens_bytes(ts.drop_first()) + t@) =~= (ts.first()@ + tokens_bytes(
            ts.drop_first(),
        )) + t@);
        assert(tokens_bytes(ts.push(t)) =~= tokens_bytes(ts) + t@);
    }
}

/// Well-formed tokens lay out to exactly 16 bytes apiece.
proof fn lemma_tokens_bytes_len(ts: Seq<Token>)
    requires
        tokens_wf(ts),
    ensures
        tokens_bytes(ts).len() == 16 * ts.len(),
    decreases ts.len(),
{
    if ts.len() == 0 {
    } else {
        assert(tokens_wf(ts.drop_first())) by {
            assert forall|i: int| 0 <= i < ts.drop_first().len() implies token_wf(
                #[trigger] ts.drop_first()[i],
            ) by {
                assert(ts.drop_first()[i] == ts[i + 1]);
            }
        }
        lemma_tokens_bytes_len(ts.drop_first());
        assert(token_wf(ts[0]));
    }
}

/// Scanning in adding mode over tokens none of which starts with the
/// sentinel collects exactly those tokens as added, then scans on.
proof fn lemma_scan_adding(ts: Seq<Token>, rest: Seq<u8>)
    requires
        tokens_wf(ts),
        no_sentinel_prefix(ts),
    ensures
        spec_scan(tokens_bytes(ts) + rest, true).0 == spec_scan(rest, true).0.union(
            tokens_set(ts),
        ),
        spec_scan(tokens_bytes(ts) + rest, true).1 == spec_scan(rest, true).1,
    decreases ts.len(),
{
    lemma_tokens_bytes_len(ts);
    if ts.len() == 0 {
        assert(tokens_bytes(ts) + rest =~= rest);
        assert(spec_scan(rest, true).0.union(tokens_set(ts)) =~= spec_scan(rest, true).0);
    } else {
        let s = tokens_bytes(ts) + rest;
        let t0 = ts.first();
        assert(token_wf(t0) && !all_zero(t0@.take(8)));
        assert(s.len() >= 16);
        assert(s.take(16) =~= t0@);
        assert(s.take(8) =~= t0@.take(8));
        assert(!all_zero(s.take(8)));
        assert(tokens_wf(ts.drop_first()) && no_sentinel_prefix(ts.drop_first())) by {
            assert forall|i: int| 0 <= i < ts.drop_first().len() implies token_wf(
                #[trigger] ts.drop_first()[i],
            ) && !all_zero(ts.drop_first()[i]@.take(8)) by {
                assert(ts.drop_first()[i] == ts[i + 1]);
            }
        }
        assert(s.skip(16) =~= tokens_bytes(ts.drop_first()) + rest);
        lemma_scan_adding(ts.drop_first(), rest);
        assert(spec_scan(s, true).0 == spec_scan(rest, true).0.union(
            tokens_set(ts.drop_first()),
        ).insert(t0@));
        assert(spec_scan(rest, true).0.union(tokens_set(ts.drop_first())).insert(t0@)
            =~= spec_scan(rest, true).0.union(tokens_set(ts)));
    }
}

/// Scanning in removing mode over laid-out tokens collects exactly
/// those tokens as removed, then scans on.
proof fn lemma_scan_removing(ts: Seq<Token>, rest: Seq<u8>)
    requires
        tokens_wf(ts),
    ensures
        spec_scan(tokens_bytes(ts) + rest, false).0 == spec_scan(rest, false).0,
        spec_scan(tokens_bytes(ts) + rest, false).1 == spec_scan(rest, false).1.union(
            tokens_set(ts),
        ),
    decreases ts.len(),
{
    lemma_tokens_bytes_len(ts);
    if ts.len() == 0 {
        assert(tokens_bytes(ts) + rest =~= rest);
        assert(spec_scan(rest, false).1.union(tokens_set(ts)) =~= spec_scan(rest, false).1);
    } else {
        let s = tokens_bytes(ts) + rest;
        let t0 = ts.first();
        assert(token_wf(t0));
        assert(s.len() >= 16);
        assert(s.take(16) =~= t0@);
        assert(tokens_wf(ts.drop_first())) by {
            assert forall|i: int| 0 <= i < ts.drop_first().len() implies token_wf(
                #[trigger] ts.drop_first()[i],
            ) by {
                assert(ts.drop_first()[i] == ts[i + 1]);
            }
        }
        assert(s.skip(16) =~= tokens_bytes(ts.drop_first()) + rest);
        lemma_scan_removing(ts.drop_first(), rest);
        assert(spec_scan(s, false).1 == spec_scan(rest, false).1.union(
            tokens_set(ts.drop_first()),
        ).insert(t0@));
        assert(spec_scan(rest, false).1.union(tokens_set(ts.drop_first())).insert(t0@)
            =~= spec_scan(rest, false).1.union(tokens_set(ts)));
    }
}

/// Decoding an encoded diff followed by any suffix too short to form a
/// 16-byte window yields the diff back.
proof fn lemma_decode_encode_with_suffix(diff: StateDiff, extra: Seq<u8>)
    requires
        diff.wf(),
        diff.parent != Some(0u64),
        no_sentinel_prefix(diff.added@),
        extra.len() < 16,
    ensures
        decodes_to(spec_encode(diff) + extra, diff),
{
    let enc = spec_encode(diff) + extra;
    let p = diff.parent_raw();
    lemma_u64_be_round_trip(p);
    assert(enc.take(8) =~= spec_u64_to_be_bytes(p));
    assert(spec_parent_of(enc) == diff.parent);
    let tail = if diff.removed@.len() > 0 {
        zero_marker() + tokens_bytes(diff.removed@)
    } else {
        Seq::<u8>::empty()
    };
    assert(enc.skip(8) =~= tokens_bytes(diff.added@) + (tail + extra));
    lemma_scan_adding(diff.added@, tail + extra);
    assert(spec_scan(extra, true) == (Set::<Seq<u8>>::empty(), Set::<Seq<u8>>::empty()));
    assert(spec_scan(extra, false) == (Set::<Seq<u8>>::empty(), Set::<Seq<u8>>::empty()));
    if diff.removed@.len() > 0 {
        lemma_tokens_bytes_len(diff.removed@);
        let m = tail + extra;
        assert(m.len() >= 16);
        assert(m.take(8) =~= zero_marker());
        assert(all_zero(m.take(8)));
        assert(m.skip(8) =~= tokens_bytes(diff.removed@) + extra);
        lemma_scan_removing(diff.removed@, extra);
        assert(spec_scan(m, true) == spec_scan(tokens_bytes(diff.removed@) + extra, false));
        assert(spec_scan(m, true).0 =~= Set::<Seq<u8>>::empty());
        assert(spec_scan(m, true).1 =~= tokens_set(diff.removed@));
    } else {
        assert(tail + extra =~= extra);
        assert(tokens_set(diff.removed@) =~= Set::<Seq<u8>>::empty());
    }
    assert(spec_added_of(enc) =~= diff.added_set());
    assert(spec_removed_of(enc) =~= diff.removed_set());
}

/// Round trip: a well-formed diff whose parent id is not the reserved
/// zero and whose added tokens never start with the 8-byte zero
/// sentinel decodes from its own encoding to the same parent and the
/// same added and removed sets.
pub proof fn lemma_round_trip(diff: StateDiff)
    requires
        diff.wf(),
        diff.parent != Some(0u64),
        no_sentinel_prefix(diff.added@),
    ensures
        decodes_to(spec_encode(diff), diff),
{
    lemma_decode_encode_with_suffix(diff, Seq::<u8>::empty());
    assert(spec_encode(diff) + Seq::<u8>::empty() =~= spec_encode(diff));
}

/// Trailing tolerance: appending up to 15 arbitrary bytes to a validly
/// encoded blob does not change what it decodes to.
pub proof fn lemma_trailing_tolerance(diff: StateDiff, extra: Seq<u8>)
    requires
        diff.wf(),
        diff.parent != Some(0u64),
        no_sentinel_prefix(diff.added@),
        extra.len() < 16,
    ensures
        decodes_to(spec_encode(diff) + extra, diff),
        decodes_to(spec_encode(diff), diff),
{
    lemma_decode_encode_with_suffix(diff, extra);
    lemma_round_trip(diff);
}

/// No-parent marker: the first 8 encoded bytes are all zero exactly
/// when the diff has no parent.
pub proof fn lemma_no_parent_marker(diff: StateDiff)
    requires
        diff.parent != Some(0u64),
    ensures
        all_zero(spec_encode(diff).take(8)) <==> diff.parent is None,
{
    let p = diff.parent_raw();
    lemma_u64_be_round_trip(p);
    lemma_u64_be_zero(p);
    assert(spec_encode(diff).take(8) =~= spec_u64_to_be_bytes(p));
}

/// The 16-byte window at index `k` of the laid-out tokens is token `k`.
proof fn lemma_tokens_bytes_window(ts: Seq<Token>, k: int)
    requires
        tokens_wf(ts),
        0 <= k < ts.len(),
    ensures
        tokens_bytes(ts).subrange(16 * k, 16 * k + 16) == ts[k]@,
    decreases k,
{
    lemma_tokens_bytes_len(ts);
    assert(token_wf(ts[0]));
    if k == 0 {
        assert(tokens_bytes(ts).subrange(0, 16) =~= ts[0]@);
    } else {
        assert(tokens_wf(ts.drop_first())) by {
            assert forall|i: int| 0 <= i < ts.drop_first().len() implies token_wf(
                #[trigger] ts.drop_first()[i],
            ) by {
                assert(ts.drop_first()[i] == ts[i + 1]);
            }
        }
        lemma_tokens_bytes_window(ts.drop_first(), k - 1);
        lemma_tokens_bytes_len(ts.drop_first());
        assert(ts.drop_first()[k - 1] == ts[k]);
        assert(tokens_bytes(ts).subrange(16 * k, 16 * k + 16) =~= tokens_bytes(
            ts.drop_first(),
        ).subrange(16 * (k - 1), 16 * (k - 1) + 16));
    }
}

/// Marker omission: when nothing is removed, no 16-byte window the
/// decoder inspects (they start at offsets 8, 24, 40, ...) begins with
/// 8 zero bytes, so the decoder never leaves adding mode.
pub proof fn lemma_marker_omission(diff: StateDiff)
    requires
        diff.wf(),
        diff.removed@.len() == 0,
        no_sentinel_prefix(diff.added@),
    ensures
        forall|k: int|
            0 <= k && 8 + 16 * k + 16 <= spec_encode(diff).len() ==> !all_zero(
                #[trigger] spec_encode(diff).subrange(8 + 16 * k, 8 + 16 * k + 8),
            ),
{
    let enc = spec_encode(diff);
    lemma_u64_be_round_trip(diff.parent_raw());
    lemma_tokens_bytes_len(diff.added@);
    assert(enc =~= spec_u64_to_be_bytes(diff.parent_raw()) + tokens_bytes(diff.added@));
    assert forall|k: int| 0 <= k && 8 + 16 * k + 16 <= enc.len() implies !all_zero(
        #[trigger] enc.subrange(8 + 16 * k, 8 + 16 * k + 8),
    ) by {
        assert(k < diff.added@.len());
        lemma_tokens_bytes_window(diff.added@, k);
        assert(enc.subrange(8 + 16 * k, 8 + 16 * k + 8) =~= diff.added@[k]@.take(8));
        assert(!all_zero(diff.added@[k]@.take(8)));
    }
}

} // verus!
