//! Word extraction over raw bytes: the maximal runs of ASCII alphanumeric
//! bytes, in input order. Such runs are ASCII, so each word decodes
//! byte-for-byte into text.

use vstd::prelude::*;

use crate::storage::chunks_view;
use crate::text::{lemma_ascii_decode, string_from_utf8_lossy};

verus! {

/// A word byte: an ASCII digit or letter.
pub open spec fn is_word_byte(b: u8) -> bool {
    (0x30 <= b <= 0x39) || (0x41 <= b <= 0x5a) || (0x61 <= b <= 0x7a)
}

/// The words of `s` scanned left to right, with `cur` the run in progress:
/// a word byte extends the run; any other byte closes it (a non-empty run
/// becomes a word); the end of input closes the final run.
pub open spec fn words_acc(s: Seq<u8>, cur: Seq<u8>) -> Seq<Seq<u8>>
    decreases s.len(),
{
    if s.len() == 0 {
        if cur.len() > 0 {
            seq![cur]
        } else {
            Seq::empty()
        }
    } else if is_word_byte(s[0]) {
        words_acc(s.drop_first(), cur.push(s[0]))
    } else {
        (if cur.len() > 0 {
            seq![cur]
        } else {
            Seq::empty()
        }) + words_acc(s.drop_first(), Seq::empty())
    }
}

/// The maximal runs of ASCII alphanumeric bytes, in order.
pub open spec fn words_of(s: Seq<u8>) -> Seq<Seq<u8>> {
    words_acc(s, Seq::empty())
}

/// ASCII bytes read as characters, one for one.
pub open spec fn ascii_chars(w: Seq<u8>) -> Seq<char> {
    w.map_values(|b: u8| b as char)
}

/// Extracts the maximal alphanumeric words of the input, in order, as text.
pub fn extract_words_from_bytes(bytes: &Vec<u8>) -> (r: Vec<String>)
    ensures
        chunks_view(r@) == words_of(bytes@).map_values(|w: Seq<u8>| ascii_chars(w)),
{
    let ghost b = bytes@;
    let ghost to_text = |w: Seq<u8>| ascii_chars(w);
    let n = bytes.len();
    let mut out: Vec<String> = Vec::new();
    let mut cur: Vec<u8> = Vec::new();
    let mut i: usize = 0;
    proof {
        assert(b.skip(0) =~= b);
        assert(chunks_view(out@) =~= Seq::<Seq<char>>::empty());
        assert(words_of(b).map_values(to_text) =~= chunks_view(out@) + words_acc(
            b.skip(0),
            cur@,
        ).map_values(to_text));
    }
    while i < n
        invariant
            b == bytes@,
            n == b.len(),
            i <= n,
            to_text == (|w: Seq<u8>| ascii_chars(w)),
            forall|t: int| 0 <= t < cur@.len() ==> is_word_byte(#[trigger] cur@[t]),
            words_of(b).map_values(to_text) == chunks_view(out@) + words_acc(
                b.skip(i as int),
                cur@,
            ).map_values(to_text),
        decreases n - i,
    {
        let ghost suf = b.skip(i as int);
        proof {
            assert(suf[0] == b[i as int]);
            assert(suf.drop_first() =~= b.skip(i + 1));
        }
        let byte = bytes[i];
        if byte >= 0x30 && byte <= 0x39 || byte >= 0x41 && byte <= 0x5a || byte >= 0x61 && byte
            <= 0x7a {
            let ghost pre_cur = cur@;
            cur.push(byte);
            proof {
                assert(is_word_byte(suf[0]));
                assert(words_acc(suf, pre_cur) == words_acc(suf.drop_first(), pre_cur.push(suf[0])));
                assert(pre_cur.push(suf[0]) =~= cur@);
                assert(words_acc(suf, pre_cur) == words_acc(b.skip(i + 1), cur@));
            }
        } else {
            let ghost pre_out = out@;
            let ghost pre_cur = cur@;
            if cur.len() > 0 {
                let word = string_from_utf8_lossy(&cur);
                proof {
                    assert(forall|t: int| 0 <= t < pre_cur.len() ==> pre_cur[t] < 0x80);
                    lemma_ascii_decode(pre_cur);
                    assert(word@ == ascii_chars(pre_cur));
                }
                out.push(word);
                cur = Vec::new();
                proof {
                    assert(chunks_view(out@) =~= chunks_view(pre_out).push(ascii_chars(pre_cur)));
                    assert(words_acc(suf, pre_cur) == seq![pre_cur] + words_acc(
                        b.skip(i + 1),
                        Seq::<u8>::empty(),
                    ));
                    assert((seq![pre_cur] + words_acc(b.skip(i + 1), Seq::<u8>::empty())).map_values(
                        to_text,
                    ) =~= seq![ascii_chars(pre_cur)] + words_acc(
                        b.skip(i + 1),
                        Seq::<u8>::empty(),
                    ).map_values(to_text));
                    assert(chunks_view(out@) + words_acc(b.skip(i + 1), cur@).map_values(to_text)
                        =~= chunks_view(pre_out) + words_acc(suf, pre_cur).map_values(to_text));
                }
            } else {
                proof {
                    assert(pre_cur =~= Seq::<u8>::empty());
                    assert(words_acc(suf, pre_cur) == Seq::<Seq<u8>>::empty() + words_acc(
                        b.skip(i + 1),
                        Seq::<u8>::empty(),
                    ));
                    assert(Seq::<Seq<u8>>::empty() + words_acc(b.skip(i + 1), Seq::<u8>::empty())
                        =~= words_acc(b.skip(i + 1), Seq::<u8>::empty()));
                    assert(chunks_view(out@) + words_acc(b.skip(i + 1), cur@).map_values(to_text)
                        =~= chunks_view(pre_out) + words_acc(suf, pre_cur).map_values(to_text));
                }
            }
        }
        i = i + 1;
    }
    proof {
        assert(b.skip(n as int).len() == 0);
    }
    if cur.len() > 0 {
        let ghost pre_out = out@;
        let ghost pre_cur = cur@;
        let word = string_from_utf8_lossy(&cur);
        proof {
            assert(forall|t: int| 0 <= t < pre_cur.len() ==> pre_cur[t] < 0x80);
            lemma_ascii_decode(pre_cur);
            assert(word@ == ascii_chars(pre_cur));
        }
        out.push(word);
        proof {
            assert(chunks_view(out@) =~= chunks_view(pre_out).push(ascii_chars(pre_cur)));
            assert(words_acc(b.skip(n as int), pre_cur).map_values(to_text) =~= seq![
                ascii_chars(pre_cur),
            ]);
            assert(words_of(b).map_values(to_text) =~= chunks_view(out@));
        }
    } else {
        proof {
            assert(words_acc(b.skip(n as int), cur@).map_values(to_text) =~= Seq::<
                Seq<char>,
            >::empty());
            assert(words_of(b).map_values(to_text) =~= chunks_view(out@));
        }
    }
    out
}

} // verus!
