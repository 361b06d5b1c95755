//! The ingestion stage: splits raw text bytes into trimmed, non-empty lines
//! in document order, and partitions them into fixed-size batches.
//!
//! Lines are the runs between line-feed bytes. Each line is decoded
//! permissively as UTF-8 (invalid sequences replaced, never fatal), trimmed
//! of Unicode White_Space characters at both ends, and dropped when empty
//! after trimming. The relative order of surviving lines is exactly their
//! order of first appearance in the input.

use vstd::prelude::*;

use crate::errors::StoreError;
use crate::storage::chunks_view;
use crate::text::{chars_to_string, lossy_decode, string_chars, string_from_utf8_lossy};

verus! {

/// A Unicode White_Space character, by code point: the ASCII controls
/// U+0009..U+000D and the space, then NEL, NO-BREAK SPACE, OGHAM SPACE MARK,
/// the EN QUAD..HAIR SPACE range, LINE SEPARATOR, PARAGRAPH SEPARATOR,
/// NARROW NO-BREAK SPACE, MEDIUM MATHEMATICAL SPACE, and IDEOGRAPHIC SPACE.
pub open spec fn is_white_space(c: char) -> bool {
    ||| (0x09 <= c as u32 <= 0x0d)
    ||| c as u32 == 0x20
    ||| c as u32 == 0x85
    ||| c as u32 == 0xa0
    ||| c as u32 == 0x1680
    ||| (0x2000 <= c as u32 <= 0x200a)
    ||| c as u32 == 0x2028
    ||| c as u32 == 0x2029
    ||| c as u32 == 0x202f
    ||| c as u32 == 0x205f
    ||| c as u32 == 0x3000
}

/// The index of the first line-feed byte, or the length when there is none.
pub open spec fn find_nl(s: Seq<u8>) -> int
    decreases s.len(),
{
    if s.len() == 0 {
        0
    } else if s[0] == 0x0a {
        0
    } else {
        1 + find_nl(s.drop_first())
    }
}

/// The pieces between line-feed bytes, in order. An input without a line
/// feed is one piece (an empty input is one empty piece); a trailing line
/// feed yields a final empty piece.
pub open spec fn split_lines(s: Seq<u8>) -> Seq<Seq<u8>>
    decreases s.len(),
{
    let p = find_nl(s);
    if 0 <= p < s.len() {
        seq![s.take(p)] + split_lines(s.skip(p + 1))
    } else {
        seq![s]
    }
}

/// Drops leading Unicode White_Space.
pub open spec fn trim_start(s: Seq<char>) -> Seq<char>
    decreases s.len(),
{
    if s.len() > 0 && is_white_space(s[0]) {
        trim_start(s.drop_first())
    } else {
        s
    }
}

/// Drops trailing Unicode White_Space.
pub open spec fn trim_end(s: Seq<char>) -> Seq<char>
    decreases s.len(),
{
    if s.len() > 0 && is_white_space(s.last()) {
        trim_end(s.drop_last())
    } else {
        s
    }
}

/// Drops Unicode White_Space at both ends.
pub open spec fn trim_spec(s: Seq<char>) -> Seq<char> {
    trim_end(trim_start(s))
}

/// The surviving lines as text: every line of the input, decoded
/// permissively and trimmed, with the ones empty after trimming dropped, in
/// input order.
pub open spec fn line_chars(b: Seq<u8>) -> Seq<Seq<char>> {
    split_lines(b).map_values(|l: Seq<u8>| trim_spec(lossy_decode(l))).filter(
        |t: Seq<char>| t.len() > 0,
    )
}

/// `find_nl` finds exactly the position of the first line feed.
proof fn lemma_find_nl_at(s: Seq<u8>, p: int)
    requires
        0 <= p <= s.len(),
        forall|t: int| 0 <= t < p ==> s[t] != 0x0a,
        p < s.len() ==> s[p] == 0x0a,
    ensures
        find_nl(s) == p,
    decreases p,
{
    if p == 0 {
    } else {
        assert(s[0] != 0x0a);
        lemma_find_nl_at(s.drop_first(), p - 1);
    }
}

/// Trimming the front skips exactly the leading whitespace run.
proof fn lemma_trim_start_skip(s: Seq<char>, lo: int)
    requires
        0 <= lo <= s.len(),
        forall|t: int| 0 <= t < lo ==> is_white_space(s[t]),
        lo < s.len() ==> !is_white_space(s[lo]),
    ensures
        trim_start(s) == s.skip(lo),
    decreases lo,
{
    if lo == 0 {
        assert(s.skip(0) =~= s);
    } else {
        assert(is_white_space(s[0]));
        lemma_trim_start_skip(s.drop_first(), lo - 1);
        assert(s.drop_first() =~= s.skip(1));
        assert(s.skip(1).skip(lo - 1) =~= s.skip(lo));
    }
}

/// Trimming the back keeps exactly what stands before the trailing
/// whitespace run.
proof fn lemma_trim_end_take(s: Seq<char>, hi: int)
    requires
        0 <= hi <= s.len(),
        forall|t: int| hi <= t < s.len() ==> is_white_space(s[t]),
        hi > 0 ==> !is_white_space(s[hi - 1]),
    ensures
        trim_end(s) == s.take(hi),
    decreases s.len() - hi,
{
    if hi == s.len() {
        assert(s.take(hi) =~= s);
    } else {
        assert(is_white_space(s.last()));
        lemma_trim_end_take(s.drop_last(), hi);
        assert(s.drop_last().take(hi) =~= s.take(hi));
    }
}

/// Text of nothing but whitespace trims to nothing.
proof fn lemma_trim_all_space(s: Seq<char>)
    requires
        forall|t: int| 0 <= t < s.len() ==> is_white_space(s[t]),
    ensures
        trim_spec(s).len() == 0,
{
    lemma_trim_start_skip(s, s.len() as int);
    assert(s.skip(s.len() as int).len() == 0);
}

/// Trimming keeps exactly the characters between the whitespace runs at the
/// two ends.
proof fn lemma_trim_parts(s: Seq<char>, lo: int, hi: int)
    requires
        0 <= lo < hi <= s.len(),
        forall|t: int| 0 <= t < lo ==> is_white_space(s[t]),
        forall|t: int| hi <= t < s.len() ==> is_white_space(s[t]),
        !is_white_space(s[lo]),
        !is_white_space(s[hi - 1]),
    ensures
        trim_spec(s) == s.subrange(lo, hi),
{
    lemma_trim_start_skip(s, lo);
    let tail = s.skip(lo);
    assert forall|t: int| hi - lo <= t < tail.len() implies is_white_space(tail[t]) by {
        assert(tail[t] == s[t + lo]);
    }
    lemma_trim_end_take(tail, hi - lo);
    assert(tail.take(hi - lo) =~= s.subrange(lo, hi));
}

/// Splitting off the first line: the surviving text of the whole input is
/// the first line's contribution (one entry if it survives trimming, none
/// otherwise) followed by the surviving text of what stands after its line
/// feed.
proof fn lemma_line_chars_step(s: Seq<u8>, p: int)
    requires
        0 <= p <= s.len(),
        forall|t: int| 0 <= t < p ==> s[t] != 0x0a,
        p < s.len() ==> s[p] == 0x0a,
    ensures
        line_chars(s) == (if trim_spec(lossy_decode(s.take(p))).len() > 0 {
            seq![trim_spec(lossy_decode(s.take(p)))]
        } else {
            Seq::<Seq<char>>::empty()
        }) + (if p < s.len() {
            line_chars(s.skip(p + 1))
        } else {
            Seq::<Seq<char>>::empty()
        }),
{
    lemma_find_nl_at(s, p);
    let line_fn = |l: Seq<u8>| trim_spec(lossy_decode(l));
    let keep_fn = |t: Seq<char>| t.len() > 0;
    reveal_with_fuel(Seq::filter, 3);
    if p == s.len() {
        assert(split_lines(s) =~= seq![s]);
        assert(s.take(p) =~= s);
        let mapped = seq![s].map_values(line_fn);
        assert(mapped =~= seq![trim_spec(lossy_decode(s))]);
        assert(mapped.drop_last() =~= Seq::<Seq<char>>::empty());
        if trim_spec(lossy_decode(s)).len() > 0 {
            assert(line_chars(s) =~= seq![trim_spec(lossy_decode(s))]);
        } else {
            assert(line_chars(s) =~= Seq::<Seq<char>>::empty());
        }
        assert(line_chars(s) =~= (if trim_spec(lossy_decode(s.take(p))).len() > 0 {
            seq![trim_spec(lossy_decode(s.take(p)))]
        } else {
            Seq::<Seq<char>>::empty()
        }) + Seq::<Seq<char>>::empty());
    } else {
        let head = s.take(p);
        let rest = s.skip(p + 1);
        assert(split_lines(s) == seq![head] + split_lines(rest));
        let a = seq![head];
        let b = split_lines(rest);
        assert((a + b).map_values(line_fn) =~= a.map_values(line_fn) + b.map_values(line_fn));
        Seq::filter_distributes_over_add(a.map_values(line_fn), b.map_values(line_fn), keep_fn);
        let ka = a.map_values(line_fn).filter(keep_fn);
        assert(a.map_values(line_fn) =~= seq![trim_spec(lossy_decode(head))]);
        assert(a.map_values(line_fn).drop_last() =~= Seq::<Seq<char>>::empty());
        if trim_spec(lossy_decode(head)).len() > 0 {
            assert(ka =~= seq![trim_spec(lossy_decode(head))]);
        } else {
            assert(ka =~= Seq::<Seq<char>>::empty());
        }
    }
}

/// Whether a character is Unicode White_Space.
fn is_white_space_char(c: char) -> (r: bool)
    ensures
        r == is_white_space(c),
{
    let u = c as u32;
    (u >= 0x09 && u <= 0x0d) || u == 0x20 || u == 0x85 || u == 0xa0 || u == 0x1680 || (u >= 0x2000
        && u <= 0x200a) || u == 0x2028 || u == 0x2029 || u == 0x202f || u == 0x205f || u == 0x3000
}

/// Removes Unicode White_Space characters from both ends of the text.
fn trim_string(s: &String) -> (r: String)
    ensures
        r@ == trim_spec(s@),
{
    let cs = string_chars(s);
    let n = cs.len();
    let mut lo: usize = 0;
    while lo < n && is_white_space_char(cs[lo])
        invariant
            cs@ == s@,
            n == cs@.len(),
            lo <= n,
            forall|t: int| 0 <= t < lo ==> is_white_space(cs@[t]),
        decreases n - lo,
    {
        lo = lo + 1;
    }
    let mut hi: usize = n;
    while hi > lo && is_white_space_char(cs[hi - 1])
        invariant
            cs@ == s@,
            n == cs@.len(),
            lo <= hi <= n,
            forall|t: int| hi <= t < n ==> is_white_space(cs@[t]),
        decreases hi,
    {
        hi = hi - 1;
    }
    if lo >= hi {
        proof {
            lemma_trim_all_space(s@);
        }
        String::new()
    } else {
        let mut sub: Vec<char> = Vec::new();
        let mut k: usize = lo;
        while k < hi
            invariant
                cs@ == s@,
                n == cs@.len(),
                lo <= k <= hi <= n,
                sub@ == cs@.subrange(lo as int, k as int),
            decreases hi - k,
        {
            sub.push(cs[k]);
            proof {
                assert(sub@ =~= cs@.subrange(lo as int, k + 1));
            }
            k = k + 1;
        }
        proof {
            lemma_trim_parts(s@, lo as int, hi as int);
        }
        chars_to_string(&sub)
    }
}

/// Splits the input into lines, decodes each permissively as UTF-8, trims
/// Unicode White_Space from both ends, and drops lines empty after trimming,
/// preserving input order.
pub fn lines_from_bytes(contents: &Vec<u8>) -> (r: Vec<String>)
    ensures
        chunks_view(r@) == line_chars(contents@),
{
    let ghost b = contents@;
    let n = contents.len();
    let mut out: Vec<String> = Vec::new();
    let mut start: usize = 0;
    proof {
        assert(b.skip(0) =~= b);
        assert(chunks_view(out@) =~= Seq::<Seq<char>>::empty());
    }
    while start <= n
        invariant_except_break
            b == contents@,
            n == b.len(),
            start <= n,
            line_chars(b) == chunks_view(out@) + line_chars(b.skip(start as int)),
        ensures
            line_chars(b) == chunks_view(out@),
        decreases n - start,
    {
        let ghost line = b.skip(start as int);
        let mut pos: usize = start;
        while pos < n && contents[pos] != 0x0a
            invariant
                b == contents@,
                n == b.len(),
                start <= pos <= n,
                forall|t: int| start <= t < pos ==> b[t] != 0x0a,
            decreases n - pos,
        {
            pos = pos + 1;
        }
        let ghost p = pos - start;
        proof {
            assert forall|t: int| 0 <= t < p implies line[t] != 0x0a by {
                assert(line[t] == b[t + start]);
            }
            assert(p < line.len() ==> line[p] == b[pos as int]);
        }
        let mut tmp: Vec<u8> = Vec::new();
        let mut k: usize = start;
        while k < pos
            invariant
                b == contents@,
                n == b.len(),
                start <= k <= pos <= n,
                tmp@ == b.subrange(start as int, k as int),
            decreases pos - k,
        {
            tmp.push(contents[k]);
            proof {
                assert(tmp@ =~= b.subrange(start as int, k + 1));
            }
            k = k + 1;
        }
        proof {
            assert(tmp@ =~= line.take(p));
        }
        let decoded = string_from_utf8_lossy(&tmp);
        let trimmed = trim_string(&decoded);
        let ghost pre_out = out@;
        if !trimmed.as_str().is_empty() {
            out.push(trimmed);
            proof {
                assert(chunks_view(out@) =~= chunks_view(pre_out).push(
                    trim_spec(lossy_decode(line.take(p))),
                ));
            }
        }
        proof {
            lemma_line_chars_step(line, p);
        }
        if pos == n {
            proof {
                assert(line_chars(b) =~= chunks_view(out@));
            }
            break;
        }
        proof {
            assert(line.skip(p + 1) =~= b.skip(pos + 1));
            assert(line_chars(b) =~= chunks_view(out@) + line_chars(b.skip(pos + 1)));
        }
        start = pos + 1;
    }
    out
}

/// Consecutive batches of exactly `k` items each, except the final batch,
/// which holds the remainder (1 to `k` items). An empty sequence yields no
/// batches.
pub open spec fn chunked<A>(s: Seq<A>, k: nat) -> Seq<Seq<A>>
    decreases s.len(),
{
    if k == 0 || s.len() == 0 {
        Seq::empty()
    } else if s.len() <= k {
        seq![s]
    } else {
        seq![s.take(k as int)] + chunked(s.skip(k as int), k)
    }
}

/// The batches as text: each batch's chunks as character sequences.
pub open spec fn batches_view(bs: Seq<Vec<String>>) -> Seq<Seq<Seq<char>>> {
    Seq::new(bs.len(), |i: int| chunks_view(bs[i]@))
}

/// Batching loses and reorders nothing: the batches flatten back to the
/// exact line sequence.
pub proof fn lemma_chunked_flatten<A>(s: Seq<A>, k: nat)
    requires
        k > 0,
    ensures
        chunked(s, k).flatten() == s,
    decreases s.len(),
{
    reveal_with_fuel(Seq::flatten, 3);
    if s.len() == 0 {
        assert(chunked(s, k).flatten() =~= s);
    } else if s.len() <= k {
        assert(seq![s].drop_first() =~= Seq::<Seq<A>>::empty());
        assert(chunked(s, k).flatten() =~= s);
    } else {
        lemma_chunked_flatten(s.skip(k as int), k);
        let c = chunked(s, k);
        assert(c.first() == s.take(k as int));
        assert(c.drop_first() =~= chunked(s.skip(k as int), k));
        assert(c.flatten() == s.take(k as int) + chunked(s.skip(k as int), k).flatten());
        assert(s.take(k as int) + s.skip(k as int) =~= s);
    }
}

/// Every batch except the last holds exactly `k` items; the last holds
/// between 1 and `k`; and there are no batches exactly when there are no
/// items.
pub proof fn lemma_chunked_shape<A>(s: Seq<A>, k: nat)
    requires
        k > 0,
    ensures
        forall|i: int|
            0 <= i < chunked(s, k).len() - 1 ==> (#[trigger] chunked(s, k)[i]).len() == k,
        chunked(s, k).len() > 0 ==> 0 < chunked(s, k).last().len() <= k,
        s.len() == 0 <==> chunked(s, k).len() == 0,
    decreases s.len(),
{
    if s.len() == 0 {
    } else if s.len() <= k {
        assert(chunked(s, k).last() == s);
    } else {
        lemma_chunked_shape(s.skip(k as int), k);
        let c = chunked(s, k);
        let rest = chunked(s.skip(k as int), k);
        assert forall|i: int| 0 <= i < c.len() - 1 implies (#[trigger] c[i]).len() == k by {
            if i == 0 {
                assert(c[0] == s.take(k as int));
            } else {
                assert(c[i] == rest[i - 1]);
            }
        }
        assert(c.last() == rest.last());
    }
}

/// Partitions the lines into consecutive batches of exactly `k` each, the
/// final batch holding the remainder.
pub fn batch_lines(lines: &Vec<String>, k: usize) -> (r: Vec<Vec<String>>)
    requires
        k > 0,
    ensures
        batches_view(r@) == chunked(chunks_view(lines@), k as nat),
{
    let ghost lv = chunks_view(lines@);
    let n = lines.len();
    let mut out: Vec<Vec<String>> = Vec::new();
    let mut i: usize = 0;
    proof {
        assert(lv.skip(0) =~= lv);
        assert(batches_view(out@) =~= Seq::<Seq<Seq<char>>>::empty());
        assert(chunked(lv, k as nat) =~= batches_view(out@) + chunked(lv.skip(0), k as nat));
    }
    while i < n
        invariant
            lv == chunks_view(lines@),
            n == lines@.len(),
            k > 0,
            i <= n,
            chunked(lv, k as nat) == batches_view(out@) + chunked(lv.skip(i as int), k as nat),
        decreases n - i,
    {
        let end: usize = if n - i <= k {
            n
        } else {
            i + k
        };
        let ghost pre_out = out@;
        let mut cur: Vec<String> = Vec::new();
        proof {
            assert(chunks_view(cur@) =~= lv.subrange(i as int, i as int));
        }
        let mut j: usize = i;
        while j < end
            invariant
                lv == chunks_view(lines@),
                n == lines@.len(),
                i <= j <= end <= n,
                chunks_view(cur@) == lv.subrange(i as int, j as int),
            decreases end - j,
        {
            let line = lines[j].clone();
            let ghost pre_cur = cur@;
            proof {
                assert(line@ == lines@[j as int]@);
            }
            cur.push(line);
            proof {
                assert(chunks_view(pre_cur).len() == pre_cur.len());
                assert(lv.subrange(i as int, j as int).len() == j - i);
                assert(chunks_view(pre_cur) == lv.subrange(i as int, j as int));
                assert(pre_cur.len() == j - i);
                assert forall|t: int| 0 <= t < cur@.len() implies chunks_view(cur@)[t]
                    == lv.subrange(i as int, j + 1)[t] by {
                    if t < j - i {
                        assert(cur@[t] == pre_cur[t]);
                        assert(chunks_view(pre_cur)[t] == lv.subrange(i as int, j as int)[t]);
                    } else {
                        assert(cur@[t]@ == lines@[j as int]@);
                    }
                }
                assert(chunks_view(cur@) =~= lv.subrange(i as int, j + 1));
            }
            j = j + 1;
        }
        let ghost cv = cur@;
        out.push(cur);
        proof {
            assert(batches_view(out@) =~= batches_view(pre_out).push(chunks_view(cv)));
            let suf = lv.skip(i as int);
            if n - i <= k {
                assert(chunks_view(cv) =~= suf);
                assert(chunked(suf, k as nat) =~= seq![suf]);
                assert(batches_view(pre_out) + chunked(suf, k as nat) =~= batches_view(out@)
                    + chunked(lv.skip(n as int), k as nat));
            } else {
                assert(chunks_view(cv) =~= suf.take(k as int));
                assert(suf.skip(k as int) =~= lv.skip(i + k));
                assert(batches_view(pre_out) + chunked(suf, k as nat) =~= batches_view(out@)
                    + chunked(lv.skip(i + k), k as nat));
            }
        }
        i = end;
    }
    proof {
        assert(chunked(lv.skip(n as int), k as nat) =~= Seq::<Seq<Seq<char>>>::empty());
        assert(batches_view(out@) =~= chunked(lv, k as nat));
    }
    out
}

/// Ingestion partitions without loss or reordering: the batches of an input
/// flatten back to exactly its surviving trimmed lines; every batch but the
/// last holds exactly `batch_size` lines and the last holds the remainder;
/// and there are no batches exactly when the input has no surviving lines.
pub proof fn lemma_ingest_partition(contents: Seq<u8>, batch_size: nat)
    requires
        batch_size > 0,
    ensures
        chunked(line_chars(contents), batch_size).flatten() == line_chars(contents),
        forall|i: int|
            0 <= i < chunked(line_chars(contents), batch_size).len() - 1 ==> (#[trigger] chunked(
                line_chars(contents),
                batch_size,
            )[i]).len() == batch_size,
        chunked(line_chars(contents), batch_size).len() > 0 ==> 0 < chunked(
            line_chars(contents),
            batch_size,
        ).last().len() <= batch_size,
        line_chars(contents).len() == 0 <==> chunked(line_chars(contents), batch_size).len() == 0,
{
    lemma_chunked_flatten(line_chars(contents), batch_size);
    lemma_chunked_shape(line_chars(contents), batch_size);
}

/// The ingestion stage's configuration: a source path and the batch size.
/// Valid only as `new` builds it; `read_line` does the work on the source's
/// bytes.
#[derive(Debug, Clone)]
pub struct Ingestor {
    pub source: String,
    pub batch_size: usize,
}

impl Ingestor {
    /// A valid configuration: the batch size is a positive multiple of 8.
    pub open spec fn wf(&self) -> bool {
        self.batch_size > 0 && self.batch_size % 8 == 0
    }

    /// Validates the configuration. The batch size must be a positive
    /// multiple of 8 — a fixed alignment constraint of the design — and the
    /// source must be an existing regular file; the caller reports the latter
    /// as `source_is_file`, the file-system check staying outside the
    /// library. Fails with `InvalidConfig` exactly when either does not hold.
    pub fn new(source: String, batch_size: usize, source_is_file: bool) -> (r: Result<
        Ingestor,
        StoreError,
    >)
        ensures
            match r {
                Ok(ing) => {
                    &&& batch_size > 0 && batch_size % 8 == 0 && source_is_file
                    &&& ing.source == source
                    &&& ing.batch_size == batch_size
                    &&& ing.wf()
                },
                Err(e) => {
                    &&& e == StoreError::InvalidConfig
                    &&& !(batch_size > 0 && batch_size % 8 == 0 && source_is_file)
                },
            },
    {
        if batch_size > 0 && batch_size % 8 == 0 && source_is_file {
            Ok(Ingestor { source, batch_size })
        } else {
            Err(StoreError::InvalidConfig)
        }
    }

    /// Splits the source's bytes into trimmed non-empty lines in document
    /// order and partitions them into consecutive batches of exactly
    /// `batch_size` lines, the final batch holding the remainder. An empty
    /// input yields zero batches.
    pub fn read_line(&self, contents: &Vec<u8>) -> (r: Vec<Vec<String>>)
        requires
            self.wf(),
        ensures
            batches_view(r@) == chunked(line_chars(contents@), self.batch_size as nat),
    {
        let lines = lines_from_bytes(contents);
        batch_lines(&lines, self.batch_size)
    }
}

} // verus!
