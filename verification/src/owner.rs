//! The line by which a stub names the bundle that it belongs to.
use vstd::prelude::*;
use crate::text;

verus! {

/// What comes before the bundle's identifier in that line.
pub const MANAGED_MARKER_PREFIX: &'static str = "# managed by mise tool-stubs bundle ";

/// The first line of `text`, without the line feed, or carriage return and
/// line feed, that ends it.
pub open spec fn first_line(content: Seq<char>) -> Seq<char> {
    let end = text::find(content, '\n');
    let line = content.take(end);
    if end < content.len() && end > 0 && line.last() == '\r' {
        line.drop_last()
    } else {
        line
    }
}

/// What follows the first line.
pub open spec fn after_first_line(content: Seq<char>) -> Seq<char> {
    let end = text::find(content, '\n');
    if end < content.len() {
        content.skip(end + 1)
    } else {
        Seq::empty()
    }
}

/// The bundle that the first marker line of a text names.
pub open spec fn owner_in(content: Seq<char>) -> Option<Seq<char>>
    decreases content.len(),
{
    if content.len() == 0 {
        None
    } else if MANAGED_MARKER_PREFIX@.is_prefix_of(first_line(content)) {
        Some(first_line(content).skip(MANAGED_MARKER_PREFIX@.len() as int))
    } else {
        proof {
            text::lemma_find(content, '\n');
        }
        owner_in(after_first_line(content))
    }
}

/// The bundle that a file of these bytes names. Bytes that are not UTF-8 name
/// none.
pub open spec fn owner_of_bytes(bytes: Seq<u8>) -> Option<Seq<char>> {
    if vstd::utf8::valid_utf8(bytes) {
        owner_in(vstd::utf8::decode_utf8(bytes))
    } else {
        None
    }
}

/// A file that holds a text names the bundle that the text names.
pub proof fn law_owner_of_text(content: Seq<char>)
    ensures
        owner_of_bytes(vstd::utf8::encode_utf8(content)) == owner_in(content),
{
    vstd::utf8::encode_utf8_valid_utf8(content);
    vstd::utf8::encode_utf8_decode_utf8(content);
}

/// `std::str::from_utf8`. The contract claims that it succeeds exactly on valid
/// UTF-8, and then gives the text that the bytes encode.
#[verifier::external_body]
fn utf8_text(bytes: &[u8]) -> (decoded: Option<&str>)
    ensures
        match decoded {
            Some(s) => vstd::utf8::valid_utf8(bytes@) && s@ == vstd::utf8::decode_utf8(bytes@),
            None => !vstd::utf8::valid_utf8(bytes@),
        },
{
    std::str::from_utf8(bytes).ok()
}

/// The bundle that the first marker line of `content` names.
pub fn bundle_owner(content: &str) -> (owner: Option<String>)
    ensures
        owner_in(content@) == match owner {
            Some(id) => Some(id@),
            None => None,
        },
{
    let chars = text::chars_of(content);
    let prefix: usize = text::chars_of(MANAGED_MARKER_PREFIX).len();
    let mut at: usize = 0;
    assert(content@.skip(0) =~= content@);
    while at < chars.len()
        invariant
            chars@ == content@,
            at <= chars@.len(),
            prefix == MANAGED_MARKER_PREFIX@.len(),
            owner_in(content@) == owner_in(content@.skip(at as int)),
        decreases chars@.len() - at,
    {
        let end = text::find_from(&chars, at, '\n');
        let ghost rest = content@.skip(at as int);
        proof {
            text::lemma_find(rest, '\n');
        }
        let stop: usize = if end < chars.len() && end > at && chars[end - 1] == '\r' {
            end - 1
        } else {
            end
        };
        let line = content.substring_char(at, stop);
        proof {
            assert(rest.take(end - at).last() == rest[end - at - 1] || end == at);
            assert(line@ =~= first_line(rest));
        }
        if text::starts_with(line, MANAGED_MARKER_PREFIX) {
            let id = line.substring_char(prefix, stop - at);
            assert(id@ =~= line@.skip(prefix as int));
            return Some(id.to_owned());
        }
        if end >= chars.len() {
            assert(owner_in(after_first_line(rest)) is None);
            return None;
        }
        assert(after_first_line(rest) =~= content@.skip(end + 1));
        at = end + 1;
    }
    assert(content@.skip(at as int) =~= Seq::empty());
    None
}

/// The bundle that a file of these bytes names.
pub fn bundle_owner_of_bytes(bytes: &Vec<u8>) -> (owner: Option<String>)
    ensures
        owner_of_bytes(bytes@) == match owner {
            Some(id) => Some(id@),
            None => None,
        },
{
    match utf8_text(bytes.as_slice()) {
        Some(content) => bundle_owner(content),
        None => None,
    }
}

/// A line of the text starts at `at`.
pub open spec fn line_starts(content: Seq<char>, at: int) -> bool {
    0 <= at < content.len() && (at == 0 || content[at - 1] == '\n')
}

/// The line that starts at `at` is a marker line.
pub open spec fn marked(content: Seq<char>, at: int) -> bool {
    line_starts(content, at) && "# managed by mise tool-stubs bundle "@.is_prefix_of(
        content.skip(at),
    )
}

/// A text without a marker line names no bundle.
pub proof fn law_no_marker_no_owner(content: Seq<char>)
    requires
        forall|at: int| !#[trigger] marked(content, at),
    ensures
        owner_in(content) is None,
    decreases content.len(),
{
    if content.len() > 0 {
        text::lemma_find(content, '\n');
        let end = text::find(content, '\n');
        let rest = after_first_line(content);
        assert(!marked(content, 0));
        lemma_first_line_marked(content);
        assert forall|at: int| !#[trigger] marked(rest, at) by {
            if marked(rest, at) {
                assert(rest.skip(at) =~= content.skip(at + end + 1));
                assert(marked(content, at + end + 1));
            }
        }
        law_no_marker_no_owner(rest);
    }
}

/// The first line carries the marker exactly if the text starts with it.
pub proof fn lemma_first_line_marked(content: Seq<char>)
    requires
        content.len() > 0,
    ensures
        MANAGED_MARKER_PREFIX@.is_prefix_of(first_line(content)) <==> marked(content, 0),
{
    let prefix = MANAGED_MARKER_PREFIX@;
    reveal_strlit("# managed by mise tool-stubs bundle ");
    text::lemma_find(content, '\n');
    let end = text::find(content, '\n');
    let line = first_line(content);
    assert(content.skip(0) =~= content);
    assert(forall|i: int| 0 <= i < line.len() ==> line[i] == content[i]);
    if prefix.is_prefix_of(line) {
        assert forall|i: int| 0 <= i < prefix.len() implies prefix[i] == content[i] by {
            assert(line.subrange(0, prefix.len() as int)[i] == prefix[i]);
        }
        assert(content.subrange(0, prefix.len() as int) =~= prefix);
    }
    if prefix.is_prefix_of(content) {
        assert forall|i: int| 0 <= i < prefix.len() implies prefix[i] == content[i] by {
            assert(content.subrange(0, prefix.len() as int)[i] == prefix[i]);
        }
        assert(forall|i: int| 0 <= i < prefix.len() ==> prefix[i] != '\n' && prefix[i] != '\r');
        assert(end >= prefix.len()) by {
            if end < prefix.len() {
                assert(content[end] == '\n');
            }
        }
        assert(line.len() >= prefix.len()) by {
            if line.len() < prefix.len() {
                assert(end == prefix.len());
                assert(content[end - 1] == prefix[end - 1]);
            }
        }
        assert(line.subrange(0, prefix.len() as int) =~= prefix);
    }
}

/// The first marker line decides: what follows the marker in it, up to the end of
/// the line, is the bundle that the text names. A carriage return before the line
/// feed does not count.
pub proof fn law_first_marker_decides(content: Seq<char>, at: int, end: int)
    requires
        marked(content, at),
        forall|k: int| 0 <= k < at ==> !#[trigger] marked(content, k),
        at + 36 <= end <= content.len(),
        forall|k: int| at <= k < end ==> content[k] != '\n',
        end < content.len() ==> content[end] == '\n',
    ensures
        owner_in(content) == Some(
            content.subrange(
                at + 36,
                if end < content.len() && content[end - 1] == '\r' {
                    end - 1
                } else {
                    end
                },
            ),
        ),
    decreases content.len(),
{
    let prefix = MANAGED_MARKER_PREFIX@;
    reveal_strlit("# managed by mise tool-stubs bundle ");
    text::lemma_find(content, '\n');
    let first = text::find(content, '\n');
    lemma_first_line_marked(content);
    if at == 0 {
        text::lemma_find_unique(content, '\n', end);
        assert(content.skip(0) =~= content);
        assert(content[35] == prefix[35]) by {
            assert(content.skip(0).subrange(0, 36)[35] == prefix[35]);
        }
        let line = first_line(content);
        assert(line.skip(36) =~= content.subrange(
            36,
            if end < content.len() && content[end - 1] == '\r' {
                end - 1
            } else {
                end
            },
        ));
    } else {
        assert(!marked(content, 0));
        assert(first < at) by {
            if first >= at {
                assert(content[at - 1] == '\n');
            }
        }
        let rest = after_first_line(content);
        let shift = first + 1;
        assert(forall|k: int| 0 <= k < rest.len() ==> rest[k] == content[k + shift]);
        assert(rest.skip(at - shift) =~= content.skip(at));
        assert(marked(rest, at - shift));
        assert forall|k: int| 0 <= k < at - shift implies !#[trigger] marked(rest, k) by {
            if marked(rest, k) {
                assert(rest.skip(k) =~= content.skip(k + shift));
                assert(marked(content, k + shift));
            }
        }
        law_first_marker_decides(rest, at - shift, end - shift);
        assert(content[at + 35] == prefix[35]) by {
            assert(content.skip(at).subrange(0, 36)[35] == prefix[35]);
        }
        let stop = if end < content.len() && content[end - 1] == '\r' {
            end - 1
        } else {
            end
        };
        assert(rest.subrange(at - shift + 36, stop - shift) =~= content.subrange(at + 36, stop));
    }
}

} // verus!
