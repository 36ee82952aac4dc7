//! Character extraction: reading a validated file's content line by line and
//! accumulating the set of distinct, non-line-terminator characters, then
//! rendering it sorted; and the per-file `collect` entry point.

use vstd::prelude::*;
use vstd::seq_lib::seq_to_set_is_finite;
use vstd::slice::slice_index_get;
use vstd::slice::slice_subrange;
use vstd::string::StrSliceExecFns;
use vstd::utf8::decode_utf8;
use vstd::utf8::valid_utf8;
use crate::charset::insert_char;
use crate::charset::lemma_render_of;
use crate::charset::lemma_sorted_render;
use crate::charset::sorted_render;
use crate::charset::sorted_unique;
use crate::merge::chars_to_string;
use crate::validate::is_valid_text;

verus! {

/// How many leading bytes of a file the text validator inspects.
pub const CHECK_PREFIX_LEN: usize = 1024;

/// The bounded prefix of a file's bytes that decides whether the file is text.
pub open spec fn checked_prefix(b: Seq<u8>) -> Seq<u8> {
    if b.len() <= CHECK_PREFIX_LEN as int {
        b
    } else {
        b.subrange(0, CHECK_PREFIX_LEN as int)
    }
}

/// The characters of a line that extraction keeps: every character except the
/// line terminators.
pub open spec fn text_chars(s: Seq<char>) -> Set<char> {
    Set::new(|c: char| s.contains(c) && c != '\n' && c != '\r')
}

/// Index of the first line-feed byte, or the sequence's length when none occurs.
pub open spec fn first_nl(b: Seq<u8>) -> nat
    decreases b.len(),
{
    if b.len() == 0 {
        0
    } else if b[0] == 0x0a {
        0
    } else {
        1 + first_nl(b.drop_first())
    }
}

/// The characters one line's bytes contribute: the line's characters when its
/// bytes decode as UTF-8, and nothing when they do not.
pub open spec fn chunk_chars(chunk: Seq<u8>) -> Set<char> {
    if valid_utf8(chunk) {
        text_chars(decode_utf8(chunk))
    } else {
        Set::empty()
    }
}

/// The characters a file's content contributes: the union over its lines,
/// each line decoded on its own and skipped when it fails to decode.
pub open spec fn content_chars(b: Seq<u8>) -> Set<char>
    decreases b.len(),
{
    let i = first_nl(b) as int;
    if i >= b.len() {
        chunk_chars(b)
    } else {
        chunk_chars(b.subrange(0, i)).union(content_chars(b.subrange(i + 1, b.len() as int)))
    }
}

/// `first_nl` is the index of the first line feed: nothing before it is one,
/// and the byte there is one unless the sequence has none at all.
proof fn lemma_first_nl_at(b: Seq<u8>, k: int)
    requires
        0 <= k <= b.len(),
        forall|j: int| 0 <= j < k ==> b[j] != 0x0a,
        k < b.len() ==> b[k] == 0x0a,
    ensures
        first_nl(b) == k,
    decreases b.len(),
{
    if b.len() == 0 {
    } else if b[0] == 0x0a {
        assert(k == 0);
    } else {
        assert(k >= 1);
        let t = b.drop_first();
        assert forall|j: int| 0 <= j < k - 1 implies t[j] != 0x0a by {
            assert(t[j] == b[j + 1]);
        }
        assert(k - 1 < t.len() ==> t[k - 1] == 0x0a);
        lemma_first_nl_at(t, k - 1);
    }
}

/// Unfolds `content_chars` at the first line feed, or at the end of the
/// content when it has none.
proof fn lemma_content_chars_split(b: Seq<u8>, k: int)
    requires
        0 <= k <= b.len(),
        forall|j: int| 0 <= j < k ==> b[j] != 0x0a,
        k < b.len() ==> b[k] == 0x0a,
    ensures
        k == b.len() ==> content_chars(b) == chunk_chars(b),
        k < b.len() ==> content_chars(b) == chunk_chars(b.subrange(0, k)).union(
            content_chars(b.subrange(k + 1, b.len() as int)),
        ),
{
    lemma_first_nl_at(b, k);
}

/// Empty content contributes no characters.
proof fn lemma_content_chars_empty()
    ensures
        content_chars(Seq::<u8>::empty()) == Set::<char>::empty(),
{
    let b = Seq::<u8>::empty();
    assert(valid_utf8(b));
    assert(decode_utf8(b) == Seq::<char>::empty());
    assert(text_chars(Seq::<char>::empty()) =~= Set::<char>::empty());
}

/// The characters a line keeps form a finite set without line terminators.
proof fn lemma_text_chars_clean(s: Seq<char>)
    ensures
        text_chars(s).finite(),
        !text_chars(s).contains('\n'),
        !text_chars(s).contains('\r'),
{
    broadcast use seq_to_set_is_finite;

    assert(text_chars(s) =~= s.to_set().remove('\n').remove('\r'));
}

/// Law: whatever a file's content holds, the characters it contributes form a
/// finite set that never includes a line feed or a carriage return.
pub proof fn lemma_content_chars_clean(b: Seq<u8>)
    ensures
        content_chars(b).finite(),
        !content_chars(b).contains('\n'),
        !content_chars(b).contains('\r'),
    decreases b.len(),
{
    let i = first_nl(b) as int;
    if i >= b.len() {
        if valid_utf8(b) {
            lemma_text_chars_clean(decode_utf8(b));
        }
    } else {
        let head = b.subrange(0, i);
        let rest = b.subrange(i + 1, b.len() as int);
        if valid_utf8(head) {
            lemma_text_chars_clean(decode_utf8(head));
        }
        lemma_content_chars_clean(rest);
        vstd::set_lib::lemma_set_union_finite_iff(chunk_chars(head), content_chars(rest));
    }
}

/// Law: a collected file's rendered sequence is strictly ascending — no
/// duplicates, sorted by code point — and holds no line feed or carriage
/// return.
pub proof fn lemma_collect_output_clean(b: Seq<u8>)
    ensures
        sorted_unique(sorted_render(content_chars(b))),
        !sorted_render(content_chars(b)).contains('\n'),
        !sorted_render(content_chars(b)).contains('\r'),
{
    lemma_content_chars_clean(b);
    lemma_sorted_render(content_chars(b));
    if sorted_render(content_chars(b)).contains('\n') {
        assert(sorted_render(content_chars(b)).to_set().contains('\n'));
    }
    if sorted_render(content_chars(b)).contains('\r') {
        assert(sorted_render(content_chars(b)).to_set().contains('\r'));
    }
}

/// Relies on `str::from_utf8`: bytes that are valid UTF-8 decode to exactly
/// the string of the characters they encode, and decoding such bytes cannot
/// fail.
#[verifier::external_body]
fn decode_valid(bytes: &[u8]) -> (r: &str)
    requires
        valid_utf8(bytes@),
    ensures
        r@ == decode_utf8(bytes@),
{
    core::str::from_utf8(bytes).unwrap()
}

/// Extending a line's prefix by one character grows its kept characters by
/// that character, unless it is a line terminator.
proof fn lemma_text_chars_extend(s: Seq<char>, i: int)
    requires
        0 <= i < s.len(),
    ensures
        (s[i] == '\n' || s[i] == '\r') ==> text_chars(s.subrange(0, i + 1)) == text_chars(
            s.subrange(0, i),
        ),
        (s[i] != '\n' && s[i] != '\r') ==> text_chars(s.subrange(0, i + 1)) == text_chars(
            s.subrange(0, i),
        ).insert(s[i]),
{
    let short = s.subrange(0, i);
    let long = s.subrange(0, i + 1);
    assert forall|x: char| long.contains(x) implies short.contains(x) || x == s[i] by {
        let j = choose|j: int| 0 <= j < long.len() && long[j] == x;
        if j < i {
            assert(short[j] == x);
        }
    }
    assert forall|x: char| short.contains(x) implies long.contains(x) by {
        let j = choose|j: int| 0 <= j < short.len() && short[j] == x;
        assert(long[j] == x);
    }
    assert(long[i] == s[i]);
    if s[i] == '\n' || s[i] == '\r' {
        assert(text_chars(long) =~= text_chars(short));
    } else {
        assert(text_chars(long) =~= text_chars(short).insert(s[i]));
    }
}

/// Inserts every character of one decoded line into the strictly ascending
/// accumulator, leaving line terminators out.
fn insert_line_chars(v: &mut Vec<char>, s: &str)
    requires
        sorted_unique(old(v)@),
    ensures
        sorted_unique(final(v)@),
        final(v)@.to_set() == old(v)@.to_set().union(text_chars(s@)),
{
    let n = s.unicode_len();
    let mut i: usize = 0;
    while i < n
        invariant
            n == s@.len(),
            0 <= i <= n,
            sorted_unique(v@),
            v@.to_set() == old(v)@.to_set().union(text_chars(s@.subrange(0, i as int))),
        decreases n - i,
    {
        let c = s.get_char(i);
        if c != '\n' && c != '\r' {
            insert_char(v, c);
        }
        proof {
            lemma_text_chars_extend(s@, i as int);
            assert(v@.to_set() =~= old(v)@.to_set().union(text_chars(s@.subrange(0, i + 1))));
        }
        i = i + 1;
    }
    proof {
        assert(s@.subrange(0, n as int) == s@);
    }
}

/// Folds the characters of one file's content into the running accumulator:
/// each line is decoded on its own, a line that fails to decode is skipped,
/// and line terminators are never inserted.
pub fn extract_into(v: &mut Vec<char>, bytes: &[u8])
    requires
        sorted_unique(old(v)@),
    ensures
        sorted_unique(final(v)@),
        final(v)@.to_set() == old(v)@.to_set().union(content_chars(bytes@)),
{
    let n = bytes.len();
    let mut start: usize = 0;
    proof {
        assert(bytes@.subrange(0, n as int) =~= bytes@);
    }
    while start < n
        invariant
            n == bytes@.len(),
            0 <= start <= n,
            sorted_unique(v@),
            v@.to_set().union(content_chars(bytes@.subrange(start as int, n as int))) == old(
                v,
            )@.to_set().union(content_chars(bytes@)),
        decreases n - start,
    {
        let mut end: usize = start;
        while end < n && *slice_index_get(bytes, end) != 0x0a
            invariant
                n == bytes@.len(),
                start <= end <= n,
                forall|j: int| start <= j < end ==> bytes@[j] != 0x0a,
            decreases n - end,
        {
            end = end + 1;
        }
        let chunk = slice_subrange(bytes, start, end);
        let ghost pre = v@;
        if is_valid_text(chunk) {
            let line = decode_valid(chunk);
            insert_line_chars(v, line);
        }
        proof {
            assert(v@.to_set() =~= pre.to_set().union(chunk_chars(chunk@)));
            let suf = bytes@.subrange(start as int, n as int);
            let k = end - start;
            assert forall|j: int| 0 <= j < k implies suf[j] != 0x0a by {
                assert(suf[j] == bytes@[start + j]);
            }
            assert(k < suf.len() ==> suf[k] == bytes@[end as int]);
            lemma_content_chars_split(suf, k);
            assert(suf.subrange(0, k) =~= chunk@);
            if end < n {
                assert(suf.subrange(k + 1, suf.len() as int) =~= bytes@.subrange(
                    end + 1,
                    n as int,
                ));
                assert(content_chars(suf) == chunk_chars(chunk@).union(
                    content_chars(bytes@.subrange(end + 1, n as int)),
                ));
                assert(v@.to_set().union(content_chars(bytes@.subrange(end + 1, n as int)))
                    =~= pre.to_set().union(content_chars(suf)));
            } else {
                assert(suf =~= chunk@);
                assert(content_chars(suf) == chunk_chars(chunk@));
                assert(bytes@.subrange(n as int, n as int) =~= Seq::<u8>::empty());
                lemma_content_chars_empty();
                assert(v@.to_set().union(content_chars(bytes@.subrange(n as int, n as int)))
                    =~= pre.to_set().union(content_chars(suf)));
            }
        }
        start = if end < n {
            end + 1
        } else {
            n
        };
    }
    proof {
        assert(bytes@.subrange(n as int, n as int) =~= Seq::<u8>::empty());
        lemma_content_chars_empty();
        assert(final(v)@.to_set() =~= old(v)@.to_set().union(content_chars(bytes@)));
    }
}

/// Decides whether a file's content counts as text: its bounded leading
/// prefix must be a valid UTF-8 encoding. A prefix that cuts a character's
/// encoding short fails, even when the full content would decode.
pub fn content_is_text(data: &[u8]) -> (r: bool)
    ensures
        r == valid_utf8(checked_prefix(data@)),
{
    let plen: usize = if data.len() <= CHECK_PREFIX_LEN {
        data.len()
    } else {
        CHECK_PREFIX_LEN
    };
    let prefix = slice_subrange(data, 0, plen);
    proof {
        assert(prefix@ =~= checked_prefix(data@));
    }
    is_valid_text(prefix)
}

/// One input file as the reading step hands it over: its full content, or the
/// mark that it could not be opened or read.
pub enum FileInput {
    Unreadable,
    Content(Vec<u8>),
}

/// Why one file yields no character sequence.
#[derive(Clone, Copy, Debug, PartialEq, Eq, Structural)]
pub enum CollectError {
    Unreadable,
    NotText,
}

/// Validates and extracts one file: the sorted, de-duplicated sequence of the
/// distinct non-terminator characters in the file's content, or the reason
/// the file is skipped. A file whose checked prefix is not valid UTF-8 is
/// not text; one whose content could not be read is unreadable.
pub fn collect(input: &FileInput) -> (r: Result<String, CollectError>)
    ensures
        match input {
            FileInput::Unreadable => r == Err::<String, CollectError>(CollectError::Unreadable),
            FileInput::Content(b) => {
                if valid_utf8(checked_prefix(b@)) {
                    r matches Ok(s) && s@ == sorted_render(content_chars(b@)) && sorted_unique(s@)
                        && s@.to_set() == content_chars(b@)
                } else {
                    r == Err::<String, CollectError>(CollectError::NotText)
                }
            },
        },
{
    match input {
        FileInput::Unreadable => Err(CollectError::Unreadable),
        FileInput::Content(b) => {
            let data: &[u8] = b.as_slice();
            if !content_is_text(data) {
                return Err(CollectError::NotText);
            }
            let mut v: Vec<char> = Vec::new();
            proof {
                assert(v@.to_set() =~= Set::<char>::empty());
            }
            extract_into(&mut v, data);
            proof {
                assert(v@.to_set() =~= content_chars(b@));
                lemma_render_of(v@);
            }
            Ok(chars_to_string(&v))
        },
    }
}

} // verus!
