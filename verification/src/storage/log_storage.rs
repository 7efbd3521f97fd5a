//! The log-structured engine: an append-only log of records and an
//! in-memory index from each live key to the byte offset of its most recent
//! record.
//!
//! The engine owns the log's byte image; the surrounding application reads
//! the file into it at opening and appends to the file exactly the bytes the
//! engine appends to the image.  The index is rebuilt from the image alone
//! by a full replay at construction, and the engine's invariant is that the
//! index always equals what that replay would produce.

use vstd::prelude::*;

use crate::bytemap::ByteMap;
use crate::bytes::{bytes_eq, contains_byte, valid_key, LF, TAB};
use crate::log_format::{
    kv_state, lemma_append_line, lemma_delete, lemma_empty_log, lemma_line_len, lemma_put,
    lemma_state_points, line_len, log_state, newline_terminated, parse_record, record, sealed,
    tombstone, tombstone_record, valid_value,
};
use crate::storage::kvstore::{Backend, StoreError};

verus! {

/// The tombstone sentinel as bytes: `__DELETED__`.
pub fn tombstone_bytes() -> (r: Vec<u8>)
    ensures
        r@ == tombstone(),
{
    let r: Vec<u8> = vec![95u8, 95u8, 68u8, 69u8, 76u8, 69u8, 84u8, 69u8, 68u8, 95u8, 95u8];
    proof {
        assert(r@ =~= tombstone());
    }
    r
}

/// Reads one line back as a key and a value: the line minus its terminator
/// is cut at its first separator.  A line with no separator is not a record.
pub fn parse_log_line(line: &Vec<u8>) -> (r: Option<(Vec<u8>, Vec<u8>)>)
    ensures
        match r {
            Some((k, v)) => parse_record(line@) == Some((k@, v@)),
            None => parse_record(line@) is None,
        },
{
    let content_len = if line.len() > 0 && line[line.len() - 1] == LF {
        line.len() - 1
    } else {
        line.len()
    };
    proof {
        if line@.len() > 0 && line@.last() == LF {
            assert(line@.drop_last() =~= line@.take(content_len as int));
        } else {
            assert(line@ =~= line@.take(content_len as int));
        }
    }
    let ghost content = line@.take(content_len as int);
    let mut t: usize = 0;
    while t < content_len && line[t] != TAB
        invariant
            t <= content_len <= line@.len(),
            forall|j: int| 0 <= j < t ==> content[j] != TAB,
            content == line@.take(content_len as int),
        decreases content_len - t,
    {
        t = t + 1;
    }
    if t == content_len {
        proof {
            if content.contains(TAB) {
                let w = choose|w: int| 0 <= w < content.len() && content[w] == TAB;
            }
        }
        return None;
    }
    proof {
        crate::bytes::lemma_find_byte(content, TAB);
        assert(content[t as int] == TAB);
        assert(content.contains(TAB));
        assert(crate::bytes::find_byte(content, TAB) == t as int);
    }
    let mut key: Vec<u8> = Vec::new();
    let mut i: usize = 0;
    while i < t
        invariant
            i <= t <= content_len <= line@.len(),
            key@ == line@.subrange(0, i as int),
        decreases t - i,
    {
        key.push(line[i]);
        i = i + 1;
    }
    let mut val: Vec<u8> = Vec::new();
    let mut j: usize = t + 1;
    while j < content_len
        invariant
            t + 1 <= j <= content_len <= line@.len(),
            val@ == line@.subrange(t + 1, j as int),
        decreases content_len - j,
    {
        val.push(line[j]);
        j = j + 1;
    }
    proof {
        assert(key@ =~= content.take(t as int));
        assert(val@ =~= content.skip(t as int + 1));
    }
    Some((key, val))
}

/// Appends the bytes of one record, `key TAB val LF`, to the log image.
fn append_record_bytes(log: &mut Vec<u8>, key: &Vec<u8>, val: &Vec<u8>)
    ensures
        final(log)@ == old(log)@ + record(key@, val@),
{
    let ghost base = log@;
    let mut i: usize = 0;
    while i < key.len()
        invariant
            i <= key@.len(),
            log@ == base + key@.take(i as int),
        decreases key@.len() - i,
    {
        proof {
            assert(base + key@.take(i as int) + seq![key@[i as int]] =~= base + key@.take(
                i as int + 1,
            ));
        }
        log.push(key[i]);
        i = i + 1;
    }
    log.push(TAB);
    let mut j: usize = 0;
    while j < val.len()
        invariant
            j <= val@.len(),
            log@ == base + key@.take(key@.len() as int) + seq![TAB] + val@.take(j as int),
        decreases val@.len() - j,
    {
        proof {
            assert(base + key@.take(key@.len() as int) + seq![TAB] + val@.take(j as int) + seq![
                val@[j as int],
            ] =~= base + key@.take(key@.len() as int) + seq![TAB] + val@.take(j as int + 1));
        }
        log.push(val[j]);
        j = j + 1;
    }
    log.push(LF);
    proof {
        assert(log@ =~= base + record(key@, val@));
    }
}

/// Copies the line that starts at byte offset `off` out of the log image:
/// everything up to and including the next terminator, or to the end of the
/// image if none follows.
fn read_line_at(log: &Vec<u8>, off: usize) -> (line: Vec<u8>)
    requires
        off < log@.len(),
    ensures
        line@ == log@.skip(off as int).take(line_len(log@.skip(off as int)) as int),
        line@.len() == line_len(log@.skip(off as int)),
        off + line@.len() <= log@.len(),
{
    let ghost s = log@.skip(off as int);
    let mut end: usize = off;
    while end < log.len() && log[end] != LF
        invariant
            off <= end <= log@.len(),
            forall|m: int| off <= m < end ==> log@[m] != LF,
        decreases log@.len() - end,
    {
        end = end + 1;
    }
    let line_end = if end < log.len() {
        end + 1
    } else {
        end
    };
    proof {
        lemma_line_len(s);
        assert(forall|i: int| 0 <= i < end - off ==> s[i] != LF);
        if end < log@.len() {
            assert(s[end - off] == LF);
            assert(s.contains(LF));
            assert(s[line_len(s) - 1] == LF);
            assert(line_len(s) - 1 >= end - off);
            assert(line_len(s) - 1 <= end - off);
        } else {
            assert(!s.contains(LF)) by {
                if s.contains(LF) {
                    let w = choose|w: int| 0 <= w < s.len() && s[w] == LF;
                    assert(log@[off + w] == LF);
                }
            }
        }
        assert(line_len(s) == line_end - off);
    }
    let mut line: Vec<u8> = Vec::new();
    let mut m = off;
    while m < line_end
        invariant
            off <= m <= line_end <= log@.len(),
            line@ == log@.subrange(off as int, m as int),
        decreases line_end - m,
    {
        line.push(log[m]);
        m = m + 1;
    }
    proof {
        assert(line@ =~= s.take(line_len(s) as int));
    }
    line
}

/// The log-structured engine.
pub struct SimpleLogBackend {
    log: Vec<u8>,
    index: ByteMap<u64>,
    current_position: u64,
}

impl SimpleLogBackend {
    /// The engine's durable state: the byte image of the log file.
    pub closed spec fn log_bytes(&self) -> Seq<u8> {
        self.log@
    }

    /// The write cursor: the offset at which the next record will land,
    /// always equal to the log's length.
    pub fn cursor(&self) -> (r: u64)
        requires
            self.wf(),
        ensures
            r as nat == self.log_bytes().len(),
    {
        self.current_position
    }

    /// Byte offset of the key's current record, if the key is live.
    pub fn index_offset(&self, key: &Vec<u8>) -> (r: Option<u64>)
        requires
            self.wf(),
        ensures
            match r {
                Some(off) => log_state(self.log_bytes()).contains_key(key@) && off as nat
                    == log_state(self.log_bytes())[key@].0,
                None => !log_state(self.log_bytes()).contains_key(key@),
            },
    {
        match self.index.get(key) {
            Some(off) => Some(*off),
            None => None,
        }
    }

    /// The log image from byte offset `from` on: after an operation, the
    /// bytes the application must append to the file; for 0, the whole
    /// image.
    pub fn log_suffix(&self, from: u64) -> (r: Vec<u8>)
        requires
            from as nat <= self.log_bytes().len(),
        ensures
            r@ == self.log_bytes().skip(from as int),
    {
        let n = self.log.len();
        proof {
            assert(from as nat <= n as nat);
        }
        let mut r: Vec<u8> = Vec::new();
        let mut m: usize = from as usize;
        while m < self.log.len()
            invariant
                from as nat <= m as nat <= self.log@.len(),
                r@ == self.log@.subrange(from as int, m as int),
            decreases self.log@.len() - m,
        {
            r.push(self.log[m]);
            m = m + 1;
        }
        proof {
            assert(r@ =~= self.log@.skip(from as int));
        }
        r
    }
}

impl Backend for SimpleLogBackend {
    /// The cursor sits at the end of the image, the image ends at a record
    /// boundary, and the index is exactly what replaying the image yields.
    closed spec fn wf(&self) -> bool {
        &&& self.index.wf()
        &&& self.current_position as nat == self.log@.len()
        &&& newline_terminated(self.log@)
        &&& self.index@.dom() == log_state(self.log@).dom()
        &&& forall|k: Seq<u8>|
            log_state(self.log@).contains_key(k) ==> (#[trigger] self.index@[k]) as nat
                == log_state(self.log@)[k].0
    }

    closed spec fn kv(&self) -> Map<Seq<u8>, Seq<u8>> {
        kv_state(self.log@)
    }

    /// Replay of the durable content, sealed if its final line was torn.
    open spec fn init_kv(content: Seq<u8>) -> Map<Seq<u8>, Seq<u8>> {
        kv_state(sealed(content))
    }

    /// Opens the engine over the bytes read from the log file and rebuilds
    /// the index by a full sequential replay.  If the content does not end
    /// in a terminator — a torn final write — a single terminator is
    /// appended to seal it, so that later appends start on a fresh line.
    fn new(content: Vec<u8>) -> (s: Self)
        ensures
            s.log_bytes() == sealed(content@),
    {
        let ghost orig = content@;
        let mut log = content;
        if log.len() > 0 && log[log.len() - 1] != LF {
            log.push(LF);
        }
        proof {
            assert(log@ =~= sealed(orig));
        }
        let mut index: ByteMap<u64> = ByteMap::new();
        let mut pos: usize = 0;
        proof {
            lemma_empty_log();
            assert(log@.take(0) =~= Seq::<u8>::empty());
            assert(index@.dom() =~= log_state(log@.take(0)).dom());
        }
        while pos < log.len()
            invariant
                index.wf(),
                pos <= log@.len(),
                newline_terminated(log@),
                newline_terminated(log@.take(pos as int)),
                index@.dom() == log_state(log@.take(pos as int)).dom(),
                forall|k: Seq<u8>|
                    log_state(log@.take(pos as int)).contains_key(k) ==> (#[trigger] index@[k])
                        as nat == log_state(log@.take(pos as int))[k].0,
            decreases log@.len() - pos,
        {
            let line = read_line_at(&log, pos);
            let ghost pre = log@.take(pos as int);
            let ghost post = log@.take(pos as int + line@.len());
            let ghost s = log@.skip(pos as int);
            proof {
                assert(post =~= pre + line@);
                lemma_line_len(s);
                assert(s.len() > 0);
                assert(s.last() == log@.last());
                assert(s.contains(LF)) by {
                    assert(s[s.len() - 1] == LF);
                }
                assert(line@.len() >= 1);
                assert(line@.last() == s[line_len(s) - 1]);
                assert(line@.last() == LF);
                assert(forall|i: int| 0 <= i < line@.len() - 1 ==> line@[i] == s[i]);
                assert(forall|i: int| 0 <= i < line@.len() - 1 ==> line@[i] != LF);
                lemma_append_line(pre, line@);
                assert(newline_terminated(post)) by {
                    assert(post.last() == LF);
                }
            }
            let ghost pre_state = log_state(pre);
            let ghost post_state = log_state(post);
            match parse_log_line(&line) {
                Some((k, v)) => {
                    let tomb = tombstone_bytes();
                    if bytes_eq(&v, &tomb) {
                        proof {
                            assert(post_state == pre_state.remove(k@));
                        }
                        index.remove(&k);
                        proof {
                            assert(index@.dom() =~= post_state.dom());
                        }
                    } else {
                        proof {
                            assert(post_state == pre_state.insert(k@, (pos as nat, v@)));
                        }
                        index.insert(k, pos as u64);
                        proof {
                            assert(index@.dom() =~= post_state.dom());
                        }
                    }
                },
                None => {
                    proof {
                        assert(post_state == pre_state);
                    }
                },
            }
            pos = pos + line.len();
        }
        proof {
            assert(log@.take(pos as int) =~= log@);
        }
        let current_position = log.len() as u64;
        SimpleLogBackend { log, index, current_position }
    }

    /// Looks the key up in the index and, if it is live, reads the one line
    /// at its recorded offset back out of the image.  The replay invariant
    /// guarantees that line parses as this key with a live value, so the
    /// parse cannot fail here.
    fn get(&self, key: &Vec<u8>) -> (r: Option<Vec<u8>>) {
        match self.index.get(key) {
            None => {
                proof {
                    assert(!log_state(self.log@).contains_key(key@));
                    assert(!kv_state(self.log@).contains_key(key@));
                }
                None
            },
            Some(off_ref) => {
                let off = *off_ref;
                let n = self.log.len();
                proof {
                    assert(log_state(self.log@).contains_key(key@));
                    lemma_state_points(self.log@, key@);
                    assert(off as nat == log_state(self.log@)[key@].0);
                    assert(off as nat + 1 <= n as nat);
                }
                let line = read_line_at(&self.log, off as usize);
                proof {
                    assert(off as usize as int == off as int);
                    assert(line@ == self.log@.skip(off as int).take(
                        line_len(self.log@.skip(off as int)) as int,
                    ));
                    assert(parse_record(line@) == Some((key@, log_state(self.log@)[key@].1)));
                }
                match parse_log_line(&line) {
                    Some((_k, v)) => {
                        proof {
                            assert(kv_state(self.log@).contains_key(key@));
                            assert(v@ == kv_state(self.log@)[key@]);
                        }
                        Some(v)
                    },
                    None => {
                        proof {
                            assert(false);
                        }
                        None
                    },
                }
            },
        }
    }

    /// Validates the pair, reads the value it will replace, appends the
    /// record, and points the index at the record's offset.
    fn insert(&mut self, key: Vec<u8>, val: Vec<u8>) -> (r: Result<Option<Vec<u8>>, StoreError>)
        ensures
            valid_key(key@) && valid_value(val@) ==> final(self).log_bytes() == old(
                self,
            ).log_bytes() + record(key@, val@),
            !(valid_key(key@) && valid_value(val@)) ==> final(self).log_bytes() == old(
                self,
            ).log_bytes(),
    {
        if contains_byte(&key, TAB) || contains_byte(&key, LF) {
            return Err(StoreError::InvalidKey);
        }
        let tomb = tombstone_bytes();
        if contains_byte(&val, TAB) || contains_byte(&val, LF) || bytes_eq(&val, &tomb) {
            return Err(StoreError::InvalidValue);
        }
        let prev = self.get(&key);
        let ghost oldlog = self.log@;
        let ghost old_state = log_state(oldlog);
        append_record_bytes(&mut self.log, &key, &val);
        proof {
            lemma_put(oldlog, key@, val@);
        }
        let off = self.current_position;
        self.index.insert(key, off);
        self.current_position = self.log.len() as u64;
        proof {
            assert(log_state(self.log@) == old_state.insert(key@, (oldlog.len(), val@)));
            assert(self.index@.dom() =~= log_state(self.log@).dom());
        }
        Ok(prev)
    }

    /// Validates the key, reads the value it deletes, appends a tombstone
    /// record, and drops the key from the index.  A key that embeds a
    /// separator or terminator can never be live, so nothing is appended
    /// for it.
    fn remove(&mut self, key: &Vec<u8>) -> (r: Option<Vec<u8>>)
        ensures
            valid_key(key@) ==> final(self).log_bytes() == old(self).log_bytes()
                + tombstone_record(key@),
            !valid_key(key@) ==> final(self).log_bytes() == old(self).log_bytes(),
    {
        if contains_byte(key, TAB) || contains_byte(key, LF) {
            proof {
                if kv_state(self.log@).contains_key(key@) {
                    lemma_state_points(self.log@, key@);
                }
                assert(kv_state(self.log@) =~= kv_state(self.log@).remove(key@));
            }
            return None;
        }
        let prev = self.get(key);
        let ghost oldlog = self.log@;
        let ghost old_state = log_state(oldlog);
        let tomb = tombstone_bytes();
        append_record_bytes(&mut self.log, key, &tomb);
        proof {
            lemma_delete(oldlog, key@);
        }
        self.index.remove(key);
        self.current_position = self.log.len() as u64;
        proof {
            assert(log_state(self.log@) == old_state.remove(key@));
            assert(self.index@.dom() =~= log_state(self.log@).dom());
        }
        prev
    }

    /// Every write is already durable before its call returns, so there is
    /// nothing left to do.
    fn flush(&self) -> (r: Result<(), StoreError>) {
        Ok(())
    }
}

} // verus!
