//! Server-sent event framing: a stream is a sequence of blocks separated by
//! a blank line; within a block, `event:` names the event and the `data:`
//! lines carry its payload.
use vstd::prelude::*;
use crate::text::{
    str_chars, chars_slice, find_first, occurs_at, contains_seq, trim, trim_string, lines_of,
    text_lines, string_views, strip_prefix, strip_prefix_seq, to_owned_string, push_str,
};
use crate::api_log::{lossy, spec_utf8_lossy};

verus! {

/// What `std::str::from_utf8` reports for bytes: `None` when they are valid
/// UTF-8; else where the valid prefix ends and the length of the invalid
/// sequence there (`None` when the bytes end inside a sequence).
pub uninterp spec fn spec_utf8_check(bytes: Seq<u8>) -> Option<(usize, Option<usize>)>;

/// std `str::from_utf8` with `Utf8Error::valid_up_to` and `error_len`; the
/// result is named by `spec_utf8_check`. An error lies inside the bytes, so
/// the valid prefix is shorter than they are.
#[verifier::external_body]
fn utf8_check(bytes: &[u8]) -> (r: Option<(usize, Option<usize>)>)
    ensures
        r == spec_utf8_check(bytes@),
        r matches Some((v, _)) ==> v < bytes@.len(),
{
    match std::str::from_utf8(bytes) {
        Ok(_) => None,
        Err(e) => Some((e.valid_up_to(), e.error_len())),
    }
}

/// Appending a chunk of bytes to the decoded text: the bytes kept from the
/// last chunk and the new ones are decoded as far as they are valid UTF-8;
/// a sequence cut at the end is kept for the next chunk, an invalid one is
/// decoded lossily with the rest.
pub open spec fn spec_append_utf8(buffer: Seq<char>, pending: Seq<u8>, bytes: Seq<u8>) -> (Seq<char>, Seq<u8>) {
    let all = pending + bytes;
    match spec_utf8_check(all) {
        None => (buffer + spec_utf8_lossy(all), Seq::empty()),
        Some((v, None)) => (buffer + spec_utf8_lossy(all.take(v as int)), all.skip(v as int)),
        Some((v, Some(_))) => (
            buffer + spec_utf8_lossy(all.take(v as int)) + spec_utf8_lossy(all.skip(v as int)),
            Seq::empty(),
        ),
    }
}

fn bytes_range(v: &Vec<u8>, from: usize, to: usize) -> (r: Vec<u8>)
    requires
        from <= to <= v@.len(),
    ensures
        r@ == v@.subrange(from as int, to as int),
{
    let mut out: Vec<u8> = Vec::new();
    let mut i = from;
    while i < to
        invariant
            from <= i <= to,
            to <= v@.len(),
            out@ == v@.subrange(from as int, i as int),
        decreases to - i,
    {
        out.push(v[i]);
        assert(out@ =~= v@.subrange(from as int, i + 1));
        i = i + 1;
    }
    out
}

/// Appends a chunk of bytes to the decoded text (see `spec_append_utf8`).
pub fn append_utf8_safe(buffer: &mut String, remainder: &mut Vec<u8>, bytes: &[u8])
    ensures
        (final(buffer)@, final(remainder)@) == spec_append_utf8(old(buffer)@, old(remainder)@, bytes@),
{
    let ghost all_v = old(remainder)@ + bytes@;
    let mut all: Vec<u8> = Vec::new();
    let mut i: usize = 0;
    while i < remainder.len()
        invariant
            i <= remainder@.len(),
            all@ == remainder@.take(i as int),
        decreases remainder.len() - i,
    {
        all.push(remainder[i]);
        assert(all@ =~= remainder@.take(i + 1));
        i = i + 1;
    }
    assert(remainder@.take(remainder@.len() as int) =~= remainder@);
    let mut j: usize = 0;
    while j < bytes.len()
        invariant
            j <= bytes@.len(),
            all@ == remainder@ + bytes@.take(j as int),
        decreases bytes.len() - j,
    {
        all.push(bytes[j]);
        assert(all@ =~= remainder@ + bytes@.take(j + 1));
        j = j + 1;
    }
    assert(bytes@.take(bytes@.len() as int) =~= bytes@);
    assert(all@ == all_v);
    match utf8_check(all.as_slice()) {
        None => {
            let text = lossy(all.as_slice());
            push_str(buffer, text.as_str());
            *remainder = Vec::new();
        },
        Some((v, err)) => {
            let head = bytes_range(&all, 0, v);
            let tail = bytes_range(&all, v, all.len());
            assert(head@ =~= all_v.take(v as int));
            assert(tail@ =~= all_v.skip(v as int));
            let text = lossy(head.as_slice());
            push_str(buffer, text.as_str());
            match err {
                Some(_) => {
                    let rest = lossy(tail.as_slice());
                    push_str(buffer, rest.as_str());
                    *remainder = Vec::new();
                },
                None => {
                    *remainder = tail;
                },
            }
        },
    }
}

/// The first complete block of `buf`, and what follows the blank line that
/// ends it; `None` while no blank line (`\n\n`) has arrived.
pub open spec fn spec_take_block(buf: Seq<char>) -> Option<(Seq<char>, Seq<char>)> {
    if contains_seq(buf, "\n\n"@) {
        let i = choose|i: int| occurs_at(buf, "\n\n"@, i) && forall|j: int| 0 <= j < i ==> !occurs_at(buf, "\n\n"@, j);
        Some((buf.take(i), buf.skip(i + 2)))
    } else {
        None
    }
}

/// Splits the first complete block off a buffer (see `spec_take_block`).
pub fn take_sse_block(buf: &str) -> (r: Option<(String, String)>)
    ensures
        match r {
            Some((block, rest)) => spec_take_block(buf@) == Some((block@, rest@)),
            None => spec_take_block(buf@) is None,
        },
{
    let v = str_chars(buf);
    let pat = str_chars("\n\n");
    proof {
        reveal_strlit("\n\n");
        assert(pat@.len() == 2);
    }
    match find_first(&v, &pat) {
        Some(i) => {
            proof {
                let c = choose|c: int| occurs_at(buf@, "\n\n"@, c) && forall|j: int| 0 <= j < c ==> !occurs_at(buf@, "\n\n"@, j);
                assert(occurs_at(buf@, "\n\n"@, i as int));
                if c < i {
                    assert(!occurs_at(buf@, "\n\n"@, c));
                } else if c > i {
                    assert(!occurs_at(buf@, "\n\n"@, i as int));
                }
            }
            let n = v.len();
            assert(i + 2 <= n);
            let block = chars_slice(&v, 0, i);
            let rest = chars_slice(&v, i + 2, n);
            assert(block@ =~= buf@.take(i as int));
            assert(rest@ =~= buf@.skip(i + 2));
            Some((block, rest))
        },
        None => None,
    }
}

/// The value of a `field:` line, without the one space that may follow the
/// colon; `None` for a line of another field.
pub open spec fn field_value(line: Seq<char>, field: Seq<char>) -> Option<Seq<char>> {
    match strip_prefix_seq(line, field) {
        Some(rest) => Some(
            if rest.len() > 0 && rest[0] == ' ' {
                rest.skip(1)
            } else {
                rest
            },
        ),
        None => None,
    }
}

/// The event name of a block: the last `event:` line, trimmed.
pub open spec fn block_event(lines: Seq<Seq<char>>) -> Option<Seq<char>>
    decreases lines.len(),
{
    if lines.len() == 0 {
        None
    } else {
        match field_value(lines.last(), "event:"@) {
            Some(v) => Some(trim(v)),
            None => block_event(lines.drop_last()),
        }
    }
}

/// The `data:` payloads of a block, joined with `\n` in line order;
/// `None` when the block has no `data:` line.
pub open spec fn block_data(lines: Seq<Seq<char>>) -> Option<Seq<char>>
    decreases lines.len(),
{
    if lines.len() == 0 {
        None
    } else {
        let prev = block_data(lines.drop_last());
        match field_value(lines.last(), "data:"@) {
            Some(v) => match prev {
                Some(p) => Some(p + "\n"@ + v),
                None => Some(v),
            },
            None => prev,
        }
    }
}

fn field_value_exec(line: &str, field: &str) -> (r: Option<String>)
    ensures
        match r {
            Some(v) => field_value(line@, field@) == Some(v@),
            None => field_value(line@, field@) is None,
        },
{
    match strip_prefix(line, field) {
        Some(rest) => {
            let v = str_chars(rest.as_str());
            if v.len() > 0 && v[0] == ' ' {
                let t = chars_slice(&v, 1, v.len());
                assert(t@ =~= rest@.skip(1));
                Some(t)
            } else {
                Some(rest)
            }
        },
        None => None,
    }
}

/// The event name and data of one block (see `block_event`, `block_data`).
pub fn sse_block_fields(block: &str) -> (r: (Option<String>, Option<String>))
    ensures
        match r.0 {
            Some(e) => block_event(text_lines(block@)) == Some(e@),
            None => block_event(text_lines(block@)) is None,
        },
        match r.1 {
            Some(d) => block_data(text_lines(block@)) == Some(d@),
            None => block_data(text_lines(block@)) is None,
        },
{
    let lines = lines_of(block);
    let ghost lv = string_views(lines@);
    let mut event: Option<String> = None;
    let mut data: Option<String> = None;
    let mut i: usize = 0;
    assert(lv.take(0) =~= Seq::<Seq<char>>::empty());
    while i < lines.len()
        invariant
            i <= lines@.len(),
            lv == string_views(lines@),
            lv == text_lines(block@),
            match event {
                Some(e) => block_event(lv.take(i as int)) == Some(e@),
                None => block_event(lv.take(i as int)) is None,
            },
            match data {
                Some(d) => block_data(lv.take(i as int)) == Some(d@),
                None => block_data(lv.take(i as int)) is None,
            },
        decreases lines.len() - i,
    {
        assert(lv.take(i + 1).drop_last() =~= lv.take(i as int));
        assert(lv.take(i + 1).last() == lines@[i as int]@);
        match field_value_exec(lines[i].as_str(), "event:") {
            Some(v) => {
                event = Some(trim_string(v.as_str()));
            },
            None => {},
        }
        match field_value_exec(lines[i].as_str(), "data:") {
            Some(v) => {
                data = match data {
                    Some(p) => {
                        let mut joined = p;
                        push_str(&mut joined, "\n");
                        push_str(&mut joined, v.as_str());
                        Some(joined)
                    },
                    None => Some(v),
                };
            },
            None => {},
        }
        i = i + 1;
    }
    assert(lv.take(lines@.len() as int) =~= lv);
    (event, data)
}

} // verus!
