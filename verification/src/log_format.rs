//! The on-disk record format and the replay model.
//!
//! The log is a flat sequence of bytes.  A record is one line,
//! `<key> TAB <value> LF`; a line whose value field equals the tombstone
//! sentinel marks its key as deleted.  Replaying the log line by line, later
//! records overriding earlier ones, yields the engine's state: for each live
//! key, the byte offset of its current record and the value stored there.

use vstd::prelude::*;

use crate::bytes::{find_byte, lemma_find_byte, lemma_find_byte_append, valid_key, LF, TAB};

verus! {

/// The sentinel value marking a key as deleted: the bytes of `__DELETED__`.
pub open spec fn tombstone() -> Seq<u8> {
    seq![95u8, 95u8, 68u8, 69u8, 76u8, 69u8, 84u8, 69u8, 68u8, 95u8, 95u8]
}

/// A value may be stored iff it embeds no separator and no terminator and
/// is not the tombstone sentinel, which is reserved for deletions.
pub open spec fn valid_value(v: Seq<u8>) -> bool {
    !v.contains(TAB) && !v.contains(LF) && v != tombstone()
}

/// The bytes appended by a write of `v` under `k`.
pub open spec fn record(k: Seq<u8>, v: Seq<u8>) -> Seq<u8> {
    k + seq![TAB] + v + seq![LF]
}

/// The bytes appended by a deletion of `k`.
pub open spec fn tombstone_record(k: Seq<u8>) -> Seq<u8> {
    record(k, tombstone())
}

/// A log to which a record may be appended directly: empty, or ending at a
/// record boundary.
pub open spec fn newline_terminated(s: Seq<u8>) -> bool {
    s.len() == 0 || s.last() == LF
}

/// A log as the engine keeps it after opening: content whose torn final
/// line, if any, has been sealed with a terminator so that later appends
/// start on a fresh line.
pub open spec fn sealed(c: Seq<u8>) -> Seq<u8> {
    if newline_terminated(c) {
        c
    } else {
        c + seq![LF]
    }
}

/// Length of the first line of `s`: everything up to and including the first
/// terminator, or all of `s` if no terminator occurs.
pub open spec fn line_len(s: Seq<u8>) -> nat
    decreases s.len(),
{
    if s.len() == 0 {
        0
    } else if s[0] == LF {
        1
    } else {
        1 + line_len(s.skip(1))
    }
}

/// The first line runs to the first terminator or to the end of `s`.
pub proof fn lemma_line_len(s: Seq<u8>)
    ensures
        line_len(s) <= s.len(),
        s.len() > 0 ==> line_len(s) >= 1,
        forall|i: int| 0 <= i < line_len(s) - 1 ==> s[i] != LF,
        s.contains(LF) <==> (line_len(s) > 0 && s[line_len(s) - 1] == LF),
        !s.contains(LF) ==> line_len(s) == s.len(),
    decreases s.len(),
{
    if s.len() == 0 {
        if s.contains(LF) {
            let w = choose|w: int| 0 <= w < s.len() && s[w] == LF;
        }
    } else if s[0] == LF {
        assert(s.contains(LF));
    } else {
        let t = s.skip(1);
        lemma_line_len(t);
        assert forall|i: int| 0 <= i < line_len(s) - 1 implies s[i] != LF by {
            if i > 0 {
                assert(s[i] == t[i - 1]);
            }
        }
        if s.contains(LF) {
            let w = choose|w: int| 0 <= w < s.len() && s[w] == LF;
            assert(w != 0);
            assert(t[w - 1] == LF);
            assert(t.contains(LF));
            assert(s[line_len(s) - 1] == t[line_len(t) - 1]);
        } else {
            if t.contains(LF) {
                let w = choose|w: int| 0 <= w < t.len() && t[w] == LF;
                assert(s[w + 1] == LF);
            }
            assert(!t.contains(LF));
        }
    }
}

/// Extending a sequence does not move its first terminator; a sequence with
/// no terminator defers the cut to the extension.
pub proof fn lemma_line_len_concat(a: Seq<u8>, c: Seq<u8>)
    ensures
        a.contains(LF) ==> line_len(a + c) == line_len(a),
        !a.contains(LF) ==> line_len(a + c) == a.len() + line_len(c),
    decreases a.len(),
{
    if a.len() == 0 {
        assert(!a.contains(LF));
        assert(a + c =~= c);
    } else if a[0] == LF {
        assert(a.contains(LF));
        assert((a + c)[0] == LF);
    } else {
        let t = a.skip(1);
        lemma_line_len_concat(t, c);
        assert((a + c)[0] == a[0]);
        assert((a + c).skip(1) =~= t + c);
        assert(a.contains(LF) <==> t.contains(LF)) by {
            if a.contains(LF) {
                let w = choose|w: int| 0 <= w < a.len() && a[w] == LF;
                assert(w != 0);
                assert(t[w - 1] == LF);
            }
            if t.contains(LF) {
                let w = choose|w: int| 0 <= w < t.len() && t[w] == LF;
                assert(a[w + 1] == LF);
            }
        }
    }
}

/// A nonempty sequence whose only terminator can be its last byte is a
/// single line.
pub proof fn lemma_line_len_whole(s: Seq<u8>)
    requires
        s.len() >= 1,
        forall|i: int| 0 <= i < s.len() - 1 ==> s[i] != LF,
    ensures
        line_len(s) == s.len(),
{
    lemma_line_len(s);
    if line_len(s) < s.len() {
        assert(s.contains(LF));
        assert(s[line_len(s) - 1] == LF);
        assert(line_len(s) - 1 < s.len() - 1);
    }
}

/// The log cut into lines, each carrying its terminator if it has one; only
/// the final line can lack one.
pub open spec fn split_lines(s: Seq<u8>) -> Seq<Seq<u8>>
    decreases s.len(),
    via split_lines_decreases
{
    if s.len() == 0 {
        Seq::empty()
    } else {
        seq![s.take(line_len(s) as int)] + split_lines(s.skip(line_len(s) as int))
    }
}

#[via_fn]
proof fn split_lines_decreases(s: Seq<u8>) {
    lemma_line_len(s);
}

/// Total byte length of a sequence of lines.
pub open spec fn lines_len(ls: Seq<Seq<u8>>) -> nat
    decreases ls.len(),
{
    if ls.len() == 0 {
        0
    } else {
        lines_len(ls.drop_last()) + ls.last().len()
    }
}

proof fn lemma_lines_len_cons(x: Seq<u8>, ls: Seq<Seq<u8>>)
    ensures
        lines_len(seq![x] + ls) == x.len() + lines_len(ls),
    decreases ls.len(),
{
    if ls.len() == 0 {
        assert(seq![x] + ls =~= seq![x]);
        assert(lines_len(seq![x]) == lines_len(seq![x].drop_last()) + x.len());
        assert(seq![x].drop_last() =~= Seq::<Seq<u8>>::empty());
    } else {
        lemma_lines_len_cons(x, ls.drop_last());
        assert((seq![x] + ls).drop_last() =~= seq![x] + ls.drop_last());
        assert((seq![x] + ls).last() == ls.last());
    }
}

/// Cutting a log into lines loses no bytes.
pub proof fn lemma_lines_len_split(s: Seq<u8>)
    ensures
        lines_len(split_lines(s)) == s.len(),
    decreases s.len(),
{
    if s.len() > 0 {
        lemma_line_len(s);
        let l = line_len(s) as int;
        lemma_lines_len_split(s.skip(l));
        lemma_lines_len_cons(s.take(l), split_lines(s.skip(l)));
    }
}

/// How one line is read back: the content (the line minus its terminator,
/// if any) is cut at its first separator into key and value; a line with no
/// separator is not a record.
pub open spec fn parse_record(line: Seq<u8>) -> Option<(Seq<u8>, Seq<u8>)> {
    let content = if line.len() > 0 && line.last() == LF {
        line.drop_last()
    } else {
        line
    };
    if !content.contains(TAB) {
        None
    } else {
        let t = find_byte(content, TAB);
        Some((content.take(t), content.skip(t + 1)))
    }
}

/// The effect of one line, read at byte offset `off`, on the replayed state:
/// a malformed line is skipped, a tombstone removes its key, and any other
/// record makes its key current at `off`.
pub open spec fn apply_record(
    m: Map<Seq<u8>, (nat, Seq<u8>)>,
    line: Seq<u8>,
    off: nat,
) -> Map<Seq<u8>, (nat, Seq<u8>)> {
    match parse_record(line) {
        None => m,
        Some((key, value)) => if value == tombstone() {
            m.remove(key)
        } else {
            m.insert(key, (off, value))
        },
    }
}

/// Replay of a sequence of lines, later lines overriding earlier ones.
pub open spec fn replay_lines(ls: Seq<Seq<u8>>) -> Map<Seq<u8>, (nat, Seq<u8>)>
    decreases ls.len(),
{
    if ls.len() == 0 {
        Map::empty()
    } else {
        apply_record(replay_lines(ls.drop_last()), ls.last(), lines_len(ls.drop_last()))
    }
}

/// The state rebuilt from a log alone: for every live key, the offset of its
/// current record and the value stored there.
pub open spec fn log_state(log: Seq<u8>) -> Map<Seq<u8>, (nat, Seq<u8>)> {
    replay_lines(split_lines(log))
}

/// The logical key-value mapping a log denotes.
pub open spec fn kv_state(log: Seq<u8>) -> Map<Seq<u8>, Seq<u8>> {
    log_state(log).map_values(|p: (nat, Seq<u8>)| p.1)
}

/// A nonempty log decomposes into a front that is a whole number of
/// terminated lines and a final line; the front's lines are the log's lines
/// but the last.
pub proof fn lemma_split_last(s: Seq<u8>)
    requires
        s.len() > 0,
    ensures
        split_lines(s).len() >= 1,
        ({
            let ls = split_lines(s);
            let last = ls.last();
            let fl = s.len() - last.len();
            &&& last.len() >= 1
            &&& 0 <= fl <= s.len()
            &&& s.skip(fl) == last
            &&& split_lines(s.take(fl)) == ls.drop_last()
            &&& newline_terminated(s.take(fl))
            &&& forall|i: int| 0 <= i < last.len() - 1 ==> last[i] != LF
        }),
    decreases s.len(),
{
    lemma_line_len(s);
    let l = line_len(s) as int;
    let first = s.take(l);
    let rest = s.skip(l);
    let ls = split_lines(s);
    if rest.len() == 0 {
        assert(split_lines(rest) =~= Seq::<Seq<u8>>::empty());
        assert(ls =~= seq![first]);
        assert(ls.last() == first);
        assert(first.len() == s.len());
        assert(s.skip(0) =~= s);
        assert(first =~= s);
        assert(s.take(0) =~= Seq::<u8>::empty());
        assert(split_lines(s.take(0)) =~= ls.drop_last());
        assert forall|i: int| 0 <= i < s.len() - 1 implies s[i] != LF by {
            assert(i < l - 1);
        }
    } else {
        lemma_split_last(rest);
        let rls = split_lines(rest);
        let last = rls.last();
        let rfl = rest.len() - last.len();
        assert(ls =~= seq![first] + rls);
        assert(ls.last() == last);
        let fl = s.len() - last.len();
        assert(fl == l + rfl);
        assert(s.skip(fl) =~= rest.skip(rfl));
        assert(s.take(fl).skip(l) =~= rest.take(rfl)) by {
            assert forall|i: int| 0 <= i < fl - l implies s.take(fl).skip(l)[i] == rest.take(rfl)[i] by {
                assert(s.take(fl).skip(l)[i] == s[l + i]);
                assert(rest.take(rfl)[i] == s[l + i]);
            }
        }
        assert(s.take(fl).take(l) =~= first) by {
            assert forall|i: int| 0 <= i < l implies s.take(fl).take(l)[i] == first[i] by {}
        }
        // the front of s begins with the same first line
        assert(first.contains(LF)) by {
            assert(l < s.len());
            assert(s[l - 1] == LF);
            assert(first[l - 1] == LF);
        }
        lemma_line_len_concat(first, s.take(fl).skip(l));
        assert(first + s.take(fl).skip(l) =~= s.take(fl));
        assert(line_len(first) == l) by {
            lemma_line_len_concat(first, rest);
            assert(first + rest =~= s);
        }
        assert(line_len(s.take(fl)) == l);
        if fl > 0 {
            assert(split_lines(s.take(fl)) =~= seq![s.take(fl).take(l)] + split_lines(
                s.take(fl).skip(l),
            ));
            assert(split_lines(s.take(fl)) =~= seq![first] + rls.drop_last());
            assert(ls.drop_last() =~= seq![first] + rls.drop_last());
            if rfl == 0 {
                assert(newline_terminated(s.take(fl))) by {
                    assert(s.take(fl) =~= first);
                    assert(first.last() == LF);
                }
            } else {
                assert(newline_terminated(rest.take(rfl)));
                assert(s.take(fl).last() == rest.take(rfl).last());
            }
        } else {
            // unreachable: the front holds at least the first line
            assert(fl >= l);
            assert(false);
        }
    }
}

/// Appending one whole line to a terminated log appends one line to its
/// line decomposition.
pub proof fn lemma_split_append(log: Seq<u8>, rec: Seq<u8>)
    requires
        newline_terminated(log),
        rec.len() >= 1,
        rec.last() == LF,
        forall|i: int| 0 <= i < rec.len() - 1 ==> rec[i] != LF,
    ensures
        split_lines(log + rec) == split_lines(log).push(rec),
    decreases log.len(),
{
    if log.len() == 0 {
        assert(log + rec =~= rec);
        lemma_line_len_whole(rec);
        assert(rec.skip(rec.len() as int) =~= Seq::<u8>::empty());
        assert(rec.take(rec.len() as int) =~= rec);
        assert(split_lines(Seq::<u8>::empty()) =~= Seq::<Seq<u8>>::empty());
        assert(split_lines(rec) =~= seq![rec]);
        assert(split_lines(log).push(rec) =~= seq![rec]);
    } else {
        lemma_line_len(log);
        let l = line_len(log) as int;
        let first = log.take(l);
        let rest = log.skip(l);
        assert(log.contains(LF)) by {
            assert(log.last() == LF);
        }
        assert(log[l - 1] == LF);
        assert(newline_terminated(rest)) by {
            if rest.len() > 0 {
                assert(rest.last() == log.last());
            }
        }
        lemma_split_append(rest, rec);
        lemma_line_len_concat(log, rec);
        assert(line_len(log + rec) == l);
        assert((log + rec).take(l) =~= first);
        assert((log + rec).skip(l) =~= rest + rec);
        assert(split_lines(log + rec) =~= seq![first] + split_lines(rest).push(rec));
        assert(seq![first] + split_lines(rest).push(rec) =~= (seq![first] + split_lines(
            rest,
        )).push(rec));
        assert(split_lines(log) =~= seq![first] + split_lines(rest));
    }
}

/// A record assembled from a valid key and a separator- and terminator-free
/// value reads back as exactly that key and value.
pub proof fn lemma_parse_record(k: Seq<u8>, v: Seq<u8>)
    requires
        valid_key(k),
        !v.contains(TAB),
        !v.contains(LF),
    ensures
        parse_record(record(k, v)) == Some((k, v)),
        record(k, v).len() == k.len() + v.len() + 2,
        record(k, v).last() == LF,
        forall|i: int| 0 <= i < record(k, v).len() - 1 ==> record(k, v)[i] != LF,
    decreases k.len(),
{
    let rec = record(k, v);
    let content = k + seq![TAB] + v;
    assert(rec.drop_last() =~= content);
    assert(rec.last() == LF);
    assert(content.contains(TAB)) by {
        assert(content[k.len() as int] == TAB);
    }
    assert(k + (seq![TAB] + v) =~= content);
    lemma_find_byte_append(k, seq![TAB] + v, TAB);
    assert((seq![TAB] + v)[0] == TAB);
    assert(find_byte(seq![TAB] + v, TAB) == 0);
    assert((seq![TAB] + v).contains(TAB));
    assert(find_byte(content, TAB) == k.len());
    assert(content.take(k.len() as int) =~= k);
    assert(content.skip(k.len() as int + 1) =~= v);
    assert forall|i: int| 0 <= i < rec.len() - 1 implies rec[i] != LF by {
        assert(rec[i] == content[i]);
        if i < k.len() {
            assert(content[i] == k[i]);
            assert(!k.contains(LF) <== k[i] == LF);
        } else if i == k.len() {
            assert(content[i] == TAB);
        } else {
            assert(content[i] == v[i - k.len() - 1]);
            assert(!v.contains(LF) <== v[i - k.len() - 1] == LF);
        }
    }
}

/// Appending one whole record line to a terminated log applies that record
/// to the replayed state, at an offset equal to the old log's length.
pub proof fn lemma_append_line(log: Seq<u8>, rec: Seq<u8>)
    requires
        newline_terminated(log),
        rec.len() >= 1,
        rec.last() == LF,
        forall|i: int| 0 <= i < rec.len() - 1 ==> rec[i] != LF,
    ensures
        log_state(log + rec) == apply_record(log_state(log), rec, log.len()),
{
    lemma_split_append(log, rec);
    lemma_lines_len_split(log);
    let ls = split_lines(log);
    assert(ls.push(rec).drop_last() =~= ls);
    assert(ls.push(rec).last() == rec);
    assert(replay_lines(ls.push(rec)) == apply_record(replay_lines(ls), rec, lines_len(ls)));
}

/// What the replayed state promises about every entry: the recorded offset
/// lies inside the log, the line that starts there reads back as that key
/// with that value, the value is not the tombstone, and neither key nor
/// value embeds a terminator.
pub proof fn lemma_state_points(log: Seq<u8>, k: Seq<u8>)
    requires
        log_state(log).contains_key(k),
    ensures
        ({
            let (off, v) = log_state(log)[k];
            &&& off + 1 <= log.len()
            &&& parse_record(log.skip(off as int).take(line_len(log.skip(off as int)) as int))
                == Some((k, v))
            &&& v != tombstone()
            &&& valid_key(k)
            &&& !v.contains(LF)
        }),
    decreases log.len(),
{
    assert(log.len() > 0) by {
        if log.len() == 0 {
            assert(split_lines(log) =~= Seq::<Seq<u8>>::empty());
            assert(log_state(log) =~= Map::<Seq<u8>, (nat, Seq<u8>)>::empty());
        }
    }
    lemma_split_last(log);
    lemma_lines_len_split(log);
    let ls = split_lines(log);
    let last = ls.last();
    let fl = log.len() - last.len();
    let front = log.take(fl);
    lemma_lines_len_split(front);
    assert(ls.drop_last() == split_lines(front));
    assert(lines_len(ls.drop_last()) == fl);
    assert(log_state(log) == apply_record(log_state(front), last, fl as nat)) by {
        assert(replay_lines(ls) == apply_record(
            replay_lines(ls.drop_last()),
            last,
            lines_len(ls.drop_last()),
        ));
    }
    let from_front = log_state(front).contains_key(k) && log_state(front)[k] == log_state(log)[k];
    let (off, v) = log_state(log)[k];
    if match parse_record(last) {
        Some((k2, v2)) => k2 == k && v2 != tombstone(),
        None => false,
    } {
        // the entry for k comes from the final line
        let (k2, v2) = parse_record(last).unwrap();
        assert(off == fl && v == v2);
        assert(log.skip(fl) == last);
        lemma_line_len_whole(last);
        assert(last.take(last.len() as int) =~= last);
        assert(off + 1 <= log.len());
        lemma_parse_content_facts(last);
    } else {
        // the entry for k survives from the front
        assert(from_front);
        lemma_state_points(front, k);
        assert(off + 1 <= fl);
        let tail = front.skip(off as int);
        assert(tail.len() > 0);
        assert(newline_terminated(front));
        assert(tail.last() == front.last());
        assert(tail.contains(LF)) by {
            assert(tail[tail.len() - 1] == LF);
        }
        lemma_line_len_concat(tail, last);
        assert(tail + last =~= log.skip(off as int));
        let l = line_len(tail) as int;
        lemma_line_len(tail);
        assert(log.skip(off as int).take(l) =~= tail.take(l));
    }
}

/// Facts `lemma_state_points` needs about one parsed line with no interior
/// terminator: its key is valid and its value is terminator-free.
proof fn lemma_parse_content_facts(line: Seq<u8>)
    requires
        line.len() >= 1,
        forall|i: int| 0 <= i < line.len() - 1 ==> line[i] != LF,
        parse_record(line) is Some,
    ensures
        ({
            let (k, v) = parse_record(line).unwrap();
            &&& valid_key(k)
            &&& !v.contains(LF)
        }),
{
    let content = if line.last() == LF {
        line.drop_last()
    } else {
        line
    };
    assert(!content.contains(LF)) by {
        if content.contains(LF) {
            let w = choose|w: int| 0 <= w < content.len() && content[w] == LF;
            if line.last() == LF {
                assert(line[w] == LF);
            } else {
                assert(line[w] == LF);
                assert(w < line.len() - 1 || line[line.len() - 1] != LF);
            }
        }
    }
    lemma_find_byte(content, TAB);
    let t = find_byte(content, TAB);
    let (k, v) = parse_record(line).unwrap();
    assert(k =~= content.take(t));
    assert(v =~= content.skip(t + 1));
    assert(!k.contains(TAB)) by {
        if k.contains(TAB) {
            let w = choose|w: int| 0 <= w < k.len() && k[w] == TAB;
            assert(content[w] == TAB);
        }
    }
    assert(!k.contains(LF)) by {
        if k.contains(LF) {
            let w = choose|w: int| 0 <= w < k.len() && k[w] == LF;
            assert(content[w] == LF);
            assert(content.contains(LF));
        }
    }
    assert(!v.contains(LF)) by {
        if v.contains(LF) {
            let w = choose|w: int| 0 <= w < v.len() && v[w] == LF;
            assert(content[t + 1 + w] == LF);
            assert(content.contains(LF));
        }
    }
}

/// An empty log holds nothing.
pub proof fn lemma_empty_log()
    ensures
        log_state(Seq::<u8>::empty()) == Map::<Seq<u8>, (nat, Seq<u8>)>::empty(),
        kv_state(Seq::<u8>::empty()) == Map::<Seq<u8>, Seq<u8>>::empty(),
{
    assert(split_lines(Seq::<u8>::empty()) =~= Seq::<Seq<u8>>::empty());
    assert(kv_state(Seq::<u8>::empty()) =~= Map::<Seq<u8>, Seq<u8>>::empty());
}

/// The tombstone sentinel itself embeds no separator and no terminator, so a
/// tombstone record is a well-formed line.
pub proof fn lemma_tombstone_clean()
    ensures
        !tombstone().contains(TAB),
        !tombstone().contains(LF),
        tombstone().len() == 11,
{
    assert(!tombstone().contains(TAB)) by {
        if tombstone().contains(TAB) {
            let w = choose|w: int| 0 <= w < tombstone().len() && tombstone()[w] == TAB;
        }
    }
    assert(!tombstone().contains(LF)) by {
        if tombstone().contains(LF) {
            let w = choose|w: int| 0 <= w < tombstone().len() && tombstone()[w] == LF;
        }
    }
}

/// Writing `v` under `k` makes `k` current at the record's offset, the old
/// log's length, and leaves every other key as it was.  This is the engine's
/// put as the file sees it: replay after the append finds exactly the
/// updated state.
pub proof fn lemma_put(log: Seq<u8>, k: Seq<u8>, v: Seq<u8>)
    requires
        newline_terminated(log),
        valid_key(k),
        valid_value(v),
    ensures
        log_state(log + record(k, v)) == log_state(log).insert(k, (log.len(), v)),
        kv_state(log + record(k, v)) == kv_state(log).insert(k, v),
        newline_terminated(log + record(k, v)),
{
    lemma_parse_record(k, v);
    let rec = record(k, v);
    lemma_append_line(log, rec);
    assert((log + rec).last() == LF);
    assert(kv_state(log + rec) =~= kv_state(log).insert(k, v));
}

/// Deleting `k` removes it from the replayed state and leaves every other
/// key as it was, even though the tombstone line stays in the log forever.
pub proof fn lemma_delete(log: Seq<u8>, k: Seq<u8>)
    requires
        newline_terminated(log),
        valid_key(k),
    ensures
        log_state(log + tombstone_record(k)) == log_state(log).remove(k),
        kv_state(log + tombstone_record(k)) == kv_state(log).remove(k),
        newline_terminated(log + tombstone_record(k)),
{
    lemma_tombstone_clean();
    lemma_parse_record(k, tombstone());
    let rec = tombstone_record(k);
    lemma_append_line(log, rec);
    assert((log + rec).last() == LF);
    assert(kv_state(log + rec) =~= kv_state(log).remove(k));
}

/// Round trip: writing `v` under `k` and replaying the log yields `v` for
/// `k`.
pub proof fn lemma_round_trip(log: Seq<u8>, k: Seq<u8>, v: Seq<u8>)
    requires
        newline_terminated(log),
        valid_key(k),
        valid_value(v),
    ensures
        kv_state(log + record(k, v)).contains_key(k),
        kv_state(log + record(k, v))[k] == v,
{
    lemma_put(log, k, v);
}

/// Overwrite: after two writes under the same key the second value is
/// current, and the key's recorded offset is the offset of the second
/// record.
pub proof fn lemma_overwrite(log: Seq<u8>, k: Seq<u8>, v1: Seq<u8>, v2: Seq<u8>)
    requires
        newline_terminated(log),
        valid_key(k),
        valid_value(v1),
        valid_value(v2),
    ensures
        ({
            let log1 = log + record(k, v1);
            let log2 = log1 + record(k, v2);
            &&& kv_state(log2).contains_key(k)
            &&& kv_state(log2)[k] == v2
            &&& log_state(log2)[k].0 == log1.len()
        }),
{
    lemma_put(log, k, v1);
    lemma_put(log + record(k, v1), k, v2);
}

/// Delete then get: a write followed by a deletion leaves the key absent.
pub proof fn lemma_delete_then_get(log: Seq<u8>, k: Seq<u8>, v: Seq<u8>)
    requires
        newline_terminated(log),
        valid_key(k),
        valid_value(v),
    ensures
        !kv_state(log + record(k, v) + tombstone_record(k)).contains_key(k),
{
    lemma_put(log, k, v);
    lemma_delete(log + record(k, v), k);
}

/// Resurrect after delete: a write after a deletion makes the new value
/// current.
pub proof fn lemma_resurrect(log: Seq<u8>, k: Seq<u8>, v1: Seq<u8>, v2: Seq<u8>)
    requires
        newline_terminated(log),
        valid_key(k),
        valid_value(v1),
        valid_value(v2),
    ensures
        ({
            let log3 = log + record(k, v1) + tombstone_record(k) + record(k, v2);
            &&& kv_state(log3).contains_key(k)
            &&& kv_state(log3)[k] == v2
        }),
{
    lemma_put(log, k, v1);
    lemma_delete(log + record(k, v1), k);
    lemma_put(log + record(k, v1) + tombstone_record(k), k, v2);
}

/// One operation against the store: a write or a deletion.
pub enum Op {
    Put { key: Seq<u8>, value: Seq<u8> },
    Delete { key: Seq<u8> },
}

/// An operation is admissible when its key and value are storable.
pub open spec fn valid_op(op: Op) -> bool {
    match op {
        Op::Put { key, value } => valid_key(key) && valid_value(value),
        Op::Delete { key } => valid_key(key),
    }
}

/// The line one operation appends to the log.
pub open spec fn op_record(op: Op) -> Seq<u8> {
    match op {
        Op::Put { key, value } => record(key, value),
        Op::Delete { key } => tombstone_record(key),
    }
}

/// One operation's effect on the key-value state.
pub open spec fn apply_op(m: Map<Seq<u8>, Seq<u8>>, op: Op) -> Map<Seq<u8>, Seq<u8>> {
    match op {
        Op::Put { key, value } => m.insert(key, value),
        Op::Delete { key } => m.remove(key),
    }
}

/// The effect of a sequence of operations, applied in order.
pub open spec fn apply_ops(m: Map<Seq<u8>, Seq<u8>>, ops: Seq<Op>) -> Map<Seq<u8>, Seq<u8>>
    decreases ops.len(),
{
    if ops.len() == 0 {
        m
    } else {
        apply_op(apply_ops(m, ops.drop_last()), ops.last())
    }
}

/// The log left behind by a sequence of operations.
pub open spec fn log_after(log: Seq<u8>, ops: Seq<Op>) -> Seq<u8>
    decreases ops.len(),
{
    if ops.len() == 0 {
        log
    } else {
        log_after(log, ops.drop_last()) + op_record(ops.last())
    }
}

/// Recovery equivalence: whatever sequence of operations ran, replaying the
/// log it left behind rebuilds exactly the state those operations produced.
/// Closing the store and reopening it against the same file therefore
/// changes nothing a reader can observe.
pub proof fn lemma_recovery_equivalence(log: Seq<u8>, ops: Seq<Op>)
    requires
        newline_terminated(log),
        forall|i: int| 0 <= i < ops.len() ==> valid_op(#[trigger] ops[i]),
    ensures
        kv_state(log_after(log, ops)) == apply_ops(kv_state(log), ops),
        newline_terminated(log_after(log, ops)),
    decreases ops.len(),
{
    if ops.len() > 0 {
        let front = ops.drop_last();
        assert(forall|i: int| 0 <= i < front.len() ==> valid_op(#[trigger] front[i]));
        lemma_recovery_equivalence(log, front);
        let mid = log_after(log, front);
        match ops.last() {
            Op::Put { key, value } => lemma_put(mid, key, value),
            Op::Delete { key } => lemma_delete(mid, key),
        }
    }
}

/// Malformed-line tolerance: a line with no separator, however it got into
/// the log, changes nothing when the log is replayed, and in particular adds
/// no entry for itself.
pub proof fn lemma_malformed_line(log: Seq<u8>, junk: Seq<u8>)
    requires
        newline_terminated(log),
        !junk.contains(TAB),
        !junk.contains(LF),
    ensures
        log_state(log + junk + seq![LF]) == log_state(log),
        kv_state(log + junk + seq![LF]) == kv_state(log),
        newline_terminated(log + junk + seq![LF]),
{
    let line = junk + seq![LF];
    assert(log + junk + seq![LF] =~= log + line);
    assert(line.last() == LF);
    assert forall|i: int| 0 <= i < line.len() - 1 implies line[i] != LF by {
        assert(line[i] == junk[i]);
        assert(!junk.contains(LF) <== junk[i] == LF);
    }
    lemma_append_line(log, line);
    assert(parse_record(line) is None) by {
        assert(line.drop_last() =~= junk);
        if junk.contains(TAB) {
        }
    }
    assert((log + line).last() == LF);
}

} // verus!
