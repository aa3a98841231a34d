//! The header line that marks a match file as owned by the snippet library.

use vstd::prelude::*;
use crate::text::{chars_of, concat, owned, trim_end_spec, trimmed_end};

verus! {

/// Files whose first line is exactly this header are owned by the snippet
/// library and can be edited from the UI. Every other match file is shown
/// read-only and never rewritten.
pub const MANAGED_HEADER: &'static str = "# espanso-library: managed by the Espanso snippet library";

/// Managed files live in this directory, relative to the match directory.
pub const MANAGED_DIR: &'static str = "library";

/// New snippets are appended to this managed file.
pub const DEFAULT_MANAGED_FILE: &'static str = "snippets.yml";

/// The text before the first line feed (all of `s` when there is none).
pub open spec fn first_line(s: Seq<char>) -> Seq<char>
    decreases s.len(),
{
    if s.len() == 0 {
        s
    } else if s[0] == '\n' {
        seq![]
    } else {
        seq![s[0]] + first_line(s.drop_first())
    }
}

/// Whether a file's text starts with the managed header line. Trailing
/// whitespace on that line (a carriage return among it) is ignored.
pub open spec fn is_managed_spec(content: Seq<char>) -> bool {
    content.len() > 0 && trim_end_spec(first_line(content)) == MANAGED_HEADER@
}

/// The first line of `s` ends at its first line feed.
proof fn lemma_first_line_at(s: Seq<char>, k: int)
    requires
        0 <= k <= s.len(),
        forall|i: int| 0 <= i < k ==> s[i] != '\n',
        k == s.len() || s[k] == '\n',
    ensures
        first_line(s) == s.take(k),
    decreases k,
{
    if k == 0 {
        assert(s.take(0) =~= seq![]);
    } else {
        lemma_first_line_at(s.drop_first(), k - 1);
        assert(seq![s[0]] + s.drop_first().take(k - 1) =~= s.take(k));
    }
}

/// Whether the text of a match file marks it as managed by the library
/// (its first line, trailing whitespace ignored, is the managed header).
pub fn is_managed(content: &str) -> (res: bool)
    ensures
        res == is_managed_spec(content@),
{
    let v = chars_of(content);
    if v.len() == 0 {
        return false;
    }
    let mut k: usize = 0;
    while k < v.len() && v[k] != '\n'
        invariant
            k <= v.len(),
            forall|i: int| 0 <= i < k ==> v@[i] != '\n',
        decreases v.len() - k,
    {
        k = k + 1;
    }
    proof {
        lemma_first_line_at(v@, k as int);
    }
    let j = trimmed_end(&v, k);
    assert(trim_end_spec(first_line(content@)) == v@.take(j as int));
    let header = chars_of(MANAGED_HEADER);
    if j != header.len() {
        return false;
    }
    let mut i: usize = 0;
    while i < j
        invariant
            j == header.len(),
            j <= v.len(),
            header@ == MANAGED_HEADER@,
            trim_end_spec(first_line(content@)) == v@.take(j as int),
            content@.len() > 0,
            i <= j,
            forall|m: int| 0 <= m < i ==> v@[m] == header@[m],
        decreases j - i,
    {
        if v[i] != header[i] {
            assert(v@.take(j as int)[i as int] != MANAGED_HEADER@[i as int]);
            return false;
        }
        i = i + 1;
    }
    assert(v@.take(j as int) =~= MANAGED_HEADER@);
    true
}

/// The managed header contains no line feed.
proof fn lemma_header_single_line()
    ensures
        forall|i: int| 0 <= i < MANAGED_HEADER@.len() ==> MANAGED_HEADER@[i] != '\n',
        MANAGED_HEADER@.len() > 0,
        !crate::text::is_white_space(MANAGED_HEADER@.last()),
{
    reveal_strlit("# espanso-library: managed by the Espanso snippet library");
}

/// The text written to a managed file: the header, a blank line, then the
/// serialized document.
pub open spec fn managed_content_spec(body: Seq<char>) -> Seq<char> {
    MANAGED_HEADER@ + seq!['\n', '\n'] + body
}

/// Frames a serialized document as a managed file.
pub fn managed_file_content(body: &str) -> (res: String)
    ensures
        res@ == managed_content_spec(body@),
{
    let mut res = owned(MANAGED_HEADER);
    res.push('\n');
    res.push('\n');
    res.append(body);
    res
}

/// Law: whatever the serialized document is, a file written by the library
/// is recognized as managed when it is read again.
pub proof fn lemma_written_file_is_managed(body: Seq<char>)
    ensures
        is_managed_spec(managed_content_spec(body)),
{
    lemma_header_single_line();
    let c = managed_content_spec(body);
    let h = MANAGED_HEADER@;
    assert forall|i: int| 0 <= i < h.len() implies c[i] != '\n' by {
        assert(c[i] == h[i]);
    };
    assert(c[h.len() as int] == '\n');
    lemma_first_line_at(c, h.len() as int);
    assert(c.take(h.len() as int) =~= h);
    assert(h.drop_last().len() < h.len());
}

/// The message given when a read-only snippet is edited or deleted.
pub open spec fn read_only_message_spec() -> Seq<char> {
    "this snippet is read-only: only files managed by the library (under match/"@
        + MANAGED_DIR@ + ") can be edited here"@
}

/// The message given when a read-only snippet is edited or deleted.
pub fn read_only_message() -> (res: String)
    ensures
        res@ == read_only_message_spec(),
{
    let mut res = concat(
        "this snippet is read-only: only files managed by the library (under match/",
        MANAGED_DIR,
    );
    res.append(") can be edited here");
    res
}

} // verus!
