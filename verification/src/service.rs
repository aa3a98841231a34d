//! The LaunchAgent entry that starts Espanso at login on macOS: rendering
//! its plist from the executable path and the user's `PATH`.

use vstd::prelude::*;
use crate::text::{
    chars_of, lemma_replace_at_pattern, lemma_replace_keeps_prefix, lemma_replace_mismatch,
    replace_all, replace_spec, trim, trim_spec,
};

verus! {

/// The LaunchAgent plist, with placeholders for the executable path and `PATH`.
pub const SERVICE_PLIST_CONTENT: &'static str = "<?xml version=\"1.0\" encoding=\"UTF-8\"?>
<!DOCTYPE plist PUBLIC \"-//Apple//DTD PLIST 1.0//EN\" \"http://www.apple.com/DTDs/PropertyList-1.0.dtd\">
<plist version=\"1.0\">
<dict>
	<key>Label</key>
	<string>com.federicoterzi.espanso</string>
	<key>EnvironmentVariables</key>
	<dict>
		<key>PATH</key>
		<string>{{{PATH}}}</string>
	</dict>
	<key>ProgramArguments</key>
	<array>
		<string>{{{espanso_path}}}</string>
		<string>launcher</string>
		<string>--launch-at-login</string>
	</array>
	<key>RunAtLoad</key>
	<true/>
	<key>StandardErrorPath</key>
	<string>/tmp/espanso.err</string>
	<key>StandardOutPath</key>
	<string>/tmp/espanso.out</string>
</dict>
</plist>
";

/// Where the executable path goes in the plist.
pub const ESPANSO_PATH_PLACEHOLDER: &'static str = "{{{espanso_path}}}";

/// Where the user's `PATH` goes in the plist.
pub const PATH_PLACEHOLDER: &'static str = "{{{PATH}}}";

/// The plist up to where the user's `PATH` goes.
pub open spec fn plist_head() -> Seq<char> {
    "<?xml version=\"1.0\" encoding=\"UTF-8\"?>
<!DOCTYPE plist PUBLIC \"-//Apple//DTD PLIST 1.0//EN\" \"http://www.apple.com/DTDs/PropertyList-1.0.dtd\">
<plist version=\"1.0\">
<dict>
	<key>Label</key>
	<string>com.federicoterzi.espanso</string>
	<key>EnvironmentVariables</key>
	<dict>
		<key>PATH</key>
		<string>"@
}

/// The plist between the user's `PATH` and the executable path.
pub open spec fn plist_middle() -> Seq<char> {
    "</string>
	</dict>
	<key>ProgramArguments</key>
	<array>
		<string>"@
}

/// The plist after the executable path.
pub open spec fn plist_tail() -> Seq<char> {
    "</string>
		<string>launcher</string>
		<string>--launch-at-login</string>
	</array>
	<key>RunAtLoad</key>
	<true/>
	<key>StandardErrorPath</key>
	<string>/tmp/espanso.err</string>
	<key>StandardOutPath</key>
	<string>/tmp/espanso.out</string>
</dict>
</plist>
"@
}

/// The name of the LaunchAgent plist file.
pub const SERVICE_PLIST_FILE_NAME: &'static str = "com.federicoterzi.espanso.plist";

/// Why the LaunchAgent could not be registered.
#[derive(Debug, Clone, PartialEq, Eq)]
pub enum RegisterError {
    ExecutablePathNotUtf8,
    PathNotUtf8,
    /// The named value contains a character that cannot be stored in an XML plist.
    InvalidXmlCharacter { field: &'static str },
    /// `launchctl load` failed with the described exit status and output.
    LaunchCtlLoadFailed { status: String, details: String },
}

/// Why the LaunchAgent could not be unregistered.
#[derive(Debug, Clone, Copy, PartialEq, Eq)]
pub enum UnregisterError {
    PlistNotFound,
}

/// Characters that an XML document cannot hold: control characters other
/// than tab, line feed and carriage return, and U+FFFE and U+FFFF.
pub open spec fn xml_forbidden(c: char) -> bool {
    ((c as u32) < 0x20 && c != '\t' && c != '\n' && c != '\r') || c == '\u{FFFE}' || c
        == '\u{FFFF}'
}

/// The XML text of one character: the five markup characters become entities.
pub open spec fn escape_char_spec(c: char) -> Seq<char> {
    if c == '&' {
        seq!['&', 'a', 'm', 'p', ';']
    } else if c == '<' {
        seq!['&', 'l', 't', ';']
    } else if c == '>' {
        seq!['&', 'g', 't', ';']
    } else if c == '\'' {
        seq!['&', 'a', 'p', 'o', 's', ';']
    } else if c == '"' {
        seq!['&', 'q', 'u', 'o', 't', ';']
    } else {
        seq![c]
    }
}

/// The XML text of a string.
pub open spec fn escape_spec(s: Seq<char>) -> Seq<char>
    decreases s.len(),
{
    if s.len() == 0 {
        seq![]
    } else {
        escape_spec(s.drop_last()) + escape_char_spec(s.last())
    }
}

/// Escapes a value for an XML plist; refused when it holds a character that
/// XML cannot hold.
pub fn escape_plist_value(field: &'static str, value: &str) -> (res: Result<String, RegisterError>)
    ensures
        (exists|i: int| 0 <= i < value@.len() && xml_forbidden(#[trigger] value@[i])) ==> res
            == Err::<String, RegisterError>(RegisterError::InvalidXmlCharacter { field }),
        !(exists|i: int| 0 <= i < value@.len() && xml_forbidden(#[trigger] value@[i])) ==> (res
            matches Ok(s) && s@ == escape_spec(value@)),
{
    let v = chars_of(value);
    let mut escaped = String::new();
    let mut i: usize = 0;
    while i < v.len()
        invariant
            i <= v.len(),
            v@ == value@,
            escaped@ == escape_spec(v@.take(i as int)),
            forall|j: int| 0 <= j < i ==> !xml_forbidden(#[trigger] v@[j]),
        decreases v.len() - i,
    {
        let character = v[i];
        if ((character as u32) < 0x20 && character != '\t' && character != '\n' && character
            != '\r') || character == '\u{FFFE}' || character == '\u{FFFF}' {
            assert(xml_forbidden(value@[i as int]));
            return Err(RegisterError::InvalidXmlCharacter { field });
        }
        assert(v@.take(i + 1).drop_last() =~= v@.take(i as int));
        if character == '&' {
            escaped.append("&amp;");
        } else if character == '<' {
            escaped.append("&lt;");
        } else if character == '>' {
            escaped.append("&gt;");
        } else if character == '\'' {
            escaped.append("&apos;");
        } else if character == '"' {
            escaped.append("&quot;");
        } else {
            escaped.push(character);
        }
        proof {
            reveal_strlit("&amp;");
            reveal_strlit("&lt;");
            reveal_strlit("&gt;");
            reveal_strlit("&apos;");
            reveal_strlit("&quot;");
        }
        assert(escaped@ =~= escape_spec(v@.take(i + 1)));
        i = i + 1;
    }
    assert(v@.take(v.len() as int) =~= v@);
    Ok(escaped)
}

/// The plist with both placeholders filled in, in this order.
pub open spec fn render_spec(espanso_path: Seq<char>, user_path: Seq<char>) -> Seq<char> {
    replace_spec(
        replace_spec(SERVICE_PLIST_CONTENT@, ESPANSO_PATH_PLACEHOLDER@, espanso_path),
        PATH_PLACEHOLDER@,
        user_path,
    )
}

/// Whether a value can be stored in an XML plist.
pub open spec fn xml_storable(s: Seq<char>) -> bool {
    forall|i: int| 0 <= i < s.len() ==> !xml_forbidden(#[trigger] s[i])
}

/// Renders the LaunchAgent plist for the executable path and the user's
/// `PATH`, both escaped for XML.
pub fn render_service_plist(espanso_path: &str, user_path: &str) -> (res: Result<
    String,
    RegisterError,
>)
    ensures
        !xml_storable(espanso_path@) ==> res == Err::<String, RegisterError>(
            RegisterError::InvalidXmlCharacter { field: "the Espanso executable path" },
        ),
        xml_storable(espanso_path@) && !xml_storable(user_path@) ==> res == Err::<
            String,
            RegisterError,
        >(RegisterError::InvalidXmlCharacter { field: "PATH" }),
        xml_storable(espanso_path@) && xml_storable(user_path@) ==> (res matches Ok(s) && s@
            == render_spec(escape_spec(espanso_path@), escape_spec(user_path@))),
{
    let espanso_path = escape_plist_value("the Espanso executable path", espanso_path)?;
    let user_path = escape_plist_value("PATH", user_path)?;
    proof {
        reveal_strlit("{{{espanso_path}}}");
        reveal_strlit("{{{PATH}}}");
    }
    let with_executable = replace_all(
        SERVICE_PLIST_CONTENT,
        ESPANSO_PATH_PLACEHOLDER,
        espanso_path.as_str(),
    );
    Ok(replace_all(with_executable.as_str(), PATH_PLACEHOLDER, user_path.as_str()))
}

/// The template is its head, the `PATH` placeholder, its middle, the
/// executable path placeholder and its tail, and none of the three pieces
/// holds a `{`.
proof fn lemma_template_pieces()
    ensures
        SERVICE_PLIST_CONTENT@ == plist_head() + (PATH_PLACEHOLDER@ + (plist_middle() + (
        ESPANSO_PATH_PLACEHOLDER@ + plist_tail()))),
        forall|i: int| 0 <= i < plist_head().len() ==> plist_head()[i] != '{',
        forall|i: int| 0 <= i < plist_middle().len() ==> plist_middle()[i] != '{',
        forall|i: int| 0 <= i < plist_tail().len() ==> plist_tail()[i] != '{',
{
    reveal_strlit("<?xml version=\"1.0\" encoding=\"UTF-8\"?>
<!DOCTYPE plist PUBLIC \"-//Apple//DTD PLIST 1.0//EN\" \"http://www.apple.com/DTDs/PropertyList-1.0.dtd\">
<plist version=\"1.0\">
<dict>
	<key>Label</key>
	<string>com.federicoterzi.espanso</string>
	<key>EnvironmentVariables</key>
	<dict>
		<key>PATH</key>
		<string>{{{PATH}}}</string>
	</dict>
	<key>ProgramArguments</key>
	<array>
		<string>{{{espanso_path}}}</string>
		<string>launcher</string>
		<string>--launch-at-login</string>
	</array>
	<key>RunAtLoad</key>
	<true/>
	<key>StandardErrorPath</key>
	<string>/tmp/espanso.err</string>
	<key>StandardOutPath</key>
	<string>/tmp/espanso.out</string>
</dict>
</plist>
");
    reveal_strlit("<?xml version=\"1.0\" encoding=\"UTF-8\"?>
<!DOCTYPE plist PUBLIC \"-//Apple//DTD PLIST 1.0//EN\" \"http://www.apple.com/DTDs/PropertyList-1.0.dtd\">
<plist version=\"1.0\">
<dict>
	<key>Label</key>
	<string>com.federicoterzi.espanso</string>
	<key>EnvironmentVariables</key>
	<dict>
		<key>PATH</key>
		<string>");
    reveal_strlit("</string>
	</dict>
	<key>ProgramArguments</key>
	<array>
		<string>");
    reveal_strlit("</string>
		<string>launcher</string>
		<string>--launch-at-login</string>
	</array>
	<key>RunAtLoad</key>
	<true/>
	<key>StandardErrorPath</key>
	<string>/tmp/espanso.err</string>
	<key>StandardOutPath</key>
	<string>/tmp/espanso.out</string>
</dict>
</plist>
");
    reveal_strlit("{{{PATH}}}");
    reveal_strlit("{{{espanso_path}}}");
    assert(SERVICE_PLIST_CONTENT@ =~= plist_head() + (PATH_PLACEHOLDER@ + (plist_middle() + (
    ESPANSO_PATH_PLACEHOLDER@ + plist_tail()))));
}

/// Text without `{` has no placeholder to replace.
proof fn lemma_replace_plain_text(u: Seq<char>, pattern: Seq<char>, with: Seq<char>)
    requires
        pattern.len() > 0,
        pattern[0] == '{',
        forall|i: int| 0 <= i < u.len() ==> u[i] != '{',
    ensures
        replace_spec(u, pattern, with) == u,
{
    lemma_replace_keeps_prefix(u, seq![], pattern, with);
    assert(u + seq![] =~= u);
}

/// Law: the rendered plist is the template with the user's `PATH` where
/// `{{{PATH}}}` stood (the `PATH` environment variable) and the executable
/// path where `{{{espanso_path}}}` stood (the first program argument), when
/// neither value holds a `{`.
pub proof fn lemma_rendered_plist_places(espanso_path: Seq<char>, user_path: Seq<char>)
    requires
        forall|i: int| 0 <= i < espanso_path.len() ==> espanso_path[i] != '{',
        forall|i: int| 0 <= i < user_path.len() ==> user_path[i] != '{',
    ensures
        render_spec(espanso_path, user_path) == plist_head() + user_path + plist_middle()
            + espanso_path + plist_tail(),
{
    lemma_template_pieces();
    reveal_strlit("{{{PATH}}}");
    reveal_strlit("{{{espanso_path}}}");
    let h = plist_head();
    let m = plist_middle();
    let r = plist_tail();
    let p = PATH_PLACEHOLDER@;
    let e = ESPANSO_PATH_PLACEHOLDER@;
    let x1 = p + (m + (e + r));
    // Replacing the executable path placeholder.
    lemma_replace_keeps_prefix(h, x1, e, espanso_path);
    lemma_replace_mismatch(x1, e, espanso_path, 3);
    lemma_replace_mismatch(x1.skip(1), e, espanso_path, 2);
    lemma_replace_mismatch(x1.skip(2), e, espanso_path, 1);
    let rest = p.skip(3);
    assert(x1.skip(1).skip(1) =~= x1.skip(2));
    assert(x1.skip(2).skip(1) =~= rest + (m + (e + r)));
    lemma_replace_keeps_prefix(rest, m + (e + r), e, espanso_path);
    lemma_replace_keeps_prefix(m, e + r, e, espanso_path);
    lemma_replace_at_pattern(r, e, espanso_path);
    lemma_replace_plain_text(r, e, espanso_path);
    let s1 = h + (p + (m + (espanso_path + r)));
    assert(replace_spec(SERVICE_PLIST_CONTENT@, e, espanso_path) =~= s1);
    // Replacing the `PATH` placeholder.
    lemma_replace_keeps_prefix(h, p + (m + (espanso_path + r)), p, user_path);
    lemma_replace_at_pattern(m + (espanso_path + r), p, user_path);
    assert forall|i: int| 0 <= i < (m + (espanso_path + r)).len() implies (m + (espanso_path
        + r))[i] != '{' by {
        if i >= m.len() && i < m.len() + espanso_path.len() {
            assert((m + (espanso_path + r))[i] == espanso_path[i - m.len()]);
        }
    };
    lemma_replace_plain_text(m + (espanso_path + r), p, user_path);
    assert(render_spec(espanso_path, user_path) =~= h + user_path + m + espanso_path + r);
}

/// Law: what `render_service_plist` gives for values without `{`: the
/// template with the escaped user `PATH` in place of `{{{PATH}}}` and the
/// escaped executable path in place of `{{{espanso_path}}}`.
pub proof fn lemma_rendered_escaped_values(espanso_path: Seq<char>, user_path: Seq<char>)
    requires
        forall|i: int| 0 <= i < espanso_path.len() ==> espanso_path[i] != '{',
        forall|i: int| 0 <= i < user_path.len() ==> user_path[i] != '{',
    ensures
        render_spec(escape_spec(espanso_path), escape_spec(user_path)) == plist_head()
            + escape_spec(user_path) + plist_middle() + escape_spec(espanso_path) + plist_tail(),
{
    lemma_escape_keeps_out_brace(espanso_path);
    lemma_escape_keeps_out_brace(user_path);
    lemma_rendered_plist_places(escape_spec(espanso_path), escape_spec(user_path));
}

/// Escaping adds no `{`.
proof fn lemma_escape_keeps_out_brace(s: Seq<char>)
    requires
        forall|i: int| 0 <= i < s.len() ==> s[i] != '{',
    ensures
        forall|i: int| 0 <= i < escape_spec(s).len() ==> escape_spec(s)[i] != '{',
    decreases s.len(),
{
    if s.len() > 0 {
        lemma_escape_keeps_out_brace(s.drop_last());
        let prev = escape_spec(s.drop_last());
        let tail = escape_char_spec(s.last());
        assert forall|i: int| 0 <= i < escape_spec(s).len() implies escape_spec(s)[i] != '{' by {
            if i >= prev.len() {
                assert(escape_spec(s)[i] == tail[i - prev.len()]);
            } else {
                assert(escape_spec(s)[i] == prev[i]);
            }
        };
    }
}

/// Law: an escaped value holds none of the characters `<`, `>`, `"` and `'`,
/// so it cannot end the plist string it is placed in.
pub proof fn lemma_escaped_has_no_markup(s: Seq<char>)
    ensures
        forall|i: int|
            0 <= i < escape_spec(s).len() ==> {
                let c = #[trigger] escape_spec(s)[i];
                c != '<' && c != '>' && c != '"' && c != '\''
            },
    decreases s.len(),
{
    if s.len() > 0 {
        lemma_escaped_has_no_markup(s.drop_last());
        let prev = escape_spec(s.drop_last());
        let tail = escape_char_spec(s.last());
        assert forall|i: int| 0 <= i < escape_spec(s).len() implies {
            let c = #[trigger] escape_spec(s)[i];
            c != '<' && c != '>' && c != '"' && c != '\''
        } by {
            if i >= prev.len() {
                assert(escape_spec(s)[i] == tail[i - prev.len()]);
            } else {
                assert(escape_spec(s)[i] == prev[i]);
            }
        };
    }
}

/// The text an XML reader gets back from escaped text: the five entities
/// become the characters they stand for.
pub open spec fn unescape_spec(s: Seq<char>) -> Seq<char>
    decreases s.len(),
{
    if s.len() == 0 {
        seq![]
    } else if s.len() >= 5 && s.take(5) == seq!['&', 'a', 'm', 'p', ';'] {
        seq!['&'] + unescape_spec(s.skip(5))
    } else if s.len() >= 4 && s.take(4) == seq!['&', 'l', 't', ';'] {
        seq!['<'] + unescape_spec(s.skip(4))
    } else if s.len() >= 4 && s.take(4) == seq!['&', 'g', 't', ';'] {
        seq!['>'] + unescape_spec(s.skip(4))
    } else if s.len() >= 6 && s.take(6) == seq!['&', 'a', 'p', 'o', 's', ';'] {
        seq!['\''] + unescape_spec(s.skip(6))
    } else if s.len() >= 6 && s.take(6) == seq!['&', 'q', 'u', 'o', 't', ';'] {
        seq!['"'] + unescape_spec(s.skip(6))
    } else {
        seq![s[0]] + unescape_spec(s.skip(1))
    }
}

/// Escaping from the front: the first character's text, then the rest's.
proof fn lemma_escape_front(p: Seq<char>)
    requires
        p.len() > 0,
    ensures
        escape_spec(p) == escape_char_spec(p[0]) + escape_spec(p.drop_first()),
    decreases p.len(),
{
    if p.len() > 1 {
        lemma_escape_front(p.drop_last());
        assert(p.drop_last().drop_first() =~= p.drop_first().drop_last());
        assert(p.drop_first().last() == p.last());
        assert(p.drop_last()[0] == p[0]);
    } else {
        assert(p.drop_last() =~= seq![]);
        assert(p.drop_first() =~= seq![]);
    }
}

/// One escaped character reads back as that character.
proof fn lemma_unescape_char(c: char, t: Seq<char>)
    ensures
        unescape_spec(escape_char_spec(c) + t) == seq![c] + unescape_spec(t),
{
    let e = escape_char_spec(c);
    let s = e + t;
    assert(s.skip(e.len() as int) =~= t);
    if c == '&' {
        assert(s.take(5) =~= seq!['&', 'a', 'm', 'p', ';']);
    } else if c == '<' {
        assert(s[1] == 'l');
        assert(s.take(4) =~= seq!['&', 'l', 't', ';']);
        if s.len() >= 5 {
            assert(s.take(5)[1] != seq!['&', 'a', 'm', 'p', ';'][1]);
        }
    } else if c == '>' {
        assert(s[1] == 'g');
        assert(s.take(4) =~= seq!['&', 'g', 't', ';']);
        if s.len() >= 5 {
            assert(s.take(5)[1] != seq!['&', 'a', 'm', 'p', ';'][1]);
        }
        assert(s.take(4)[1] != seq!['&', 'l', 't', ';'][1]);
    } else if c == '\'' {
        assert(s.take(6) =~= seq!['&', 'a', 'p', 'o', 's', ';']);
        assert(s.take(5)[3] != seq!['&', 'a', 'm', 'p', ';'][3]);
        assert(s.take(4)[1] != seq!['&', 'l', 't', ';'][1]);
        assert(s.take(4)[1] != seq!['&', 'g', 't', ';'][1]);
    } else if c == '"' {
        assert(s.take(6) =~= seq!['&', 'q', 'u', 'o', 't', ';']);
        assert(s.take(5)[1] != seq!['&', 'a', 'm', 'p', ';'][1]);
        assert(s.take(4)[1] != seq!['&', 'l', 't', ';'][1]);
        assert(s.take(4)[1] != seq!['&', 'g', 't', ';'][1]);
        assert(s.take(6)[1] != seq!['&', 'a', 'p', 'o', 's', ';'][1]);
    } else {
        assert(s[0] == c);
        if s.len() >= 4 {
            assert(s.take(4)[0] == c);
        }
        if s.len() >= 5 {
            assert(s.take(5)[0] == c);
        }
        if s.len() >= 6 {
            assert(s.take(6)[0] == c);
        }
    }
}

proof fn lemma_unescape_escaped_prefix(p: Seq<char>, t: Seq<char>)
    ensures
        unescape_spec(escape_spec(p) + t) == p + unescape_spec(t),
    decreases p.len(),
{
    if p.len() == 0 {
        assert(escape_spec(p) + t =~= t);
        assert(p + unescape_spec(t) =~= unescape_spec(t));
    } else {
        lemma_escape_front(p);
        let rest = p.drop_first();
        assert(escape_spec(p) + t =~= escape_char_spec(p[0]) + (escape_spec(rest) + t));
        lemma_unescape_char(p[0], escape_spec(rest) + t);
        lemma_unescape_escaped_prefix(rest, t);
        assert(seq![p[0]] + (rest + unescape_spec(t)) =~= p + unescape_spec(t));
    }
}

/// Law: escaping loses nothing; an XML reader gets the value back exactly.
pub proof fn lemma_unescape_escape(s: Seq<char>)
    ensures
        unescape_spec(escape_spec(s)) == s,
{
    lemma_unescape_escaped_prefix(s, seq![]);
    assert(escape_spec(s) + seq![] =~= escape_spec(s));
    assert(s + unescape_spec(seq![]) =~= s);
}

/// The text of character `c` after the first `k` replacements of the
/// read-back chain: the characters of the replaced entities are back.
spec fn stage_char(k: int, c: char) -> Seq<char> {
    if (c == '<' && k >= 1) || (c == '>' && k >= 2) || (c == '\'' && k >= 3) || (c == '"' && k
        >= 4) || (c == '&' && k >= 5) {
        seq![c]
    } else {
        escape_char_spec(c)
    }
}

/// An escaped string after the first `k` replacements of the chain.
spec fn staged(k: int, s: Seq<char>) -> Seq<char>
    decreases s.len(),
{
    if s.len() == 0 {
        seq![]
    } else {
        stage_char(k, s[0]) + staged(k, s.drop_first())
    }
}

/// The entity that replacement `k` of the chain reads back.
spec fn stage_entity(k: int) -> Seq<char> {
    if k == 1 {
        seq!['&', 'l', 't', ';']
    } else if k == 2 {
        seq!['&', 'g', 't', ';']
    } else if k == 3 {
        seq!['&', 'a', 'p', 'o', 's', ';']
    } else if k == 4 {
        seq!['&', 'q', 'u', 'o', 't', ';']
    } else {
        seq!['&', 'a', 'm', 'p', ';']
    }
}

/// The character that replacement `k` of the chain puts back.
spec fn stage_target(k: int) -> char {
    if k == 1 {
        '<'
    } else if k == 2 {
        '>'
    } else if k == 3 {
        '\''
    } else if k == 4 {
        '"'
    } else {
        '&'
    }
}

/// Text without `&` passes through a replacement of a pattern that starts
/// with `&`.
proof fn lemma_replace_skips_plain(u: Seq<char>, t: Seq<char>, pat: Seq<char>, with: Seq<char>)
    requires
        pat.len() > 0,
        pat[0] == '&',
        forall|i: int| 0 <= i < u.len() ==> u[i] != '&',
    ensures
        replace_spec(u + t, pat, with) == u + replace_spec(t, pat, with),
    decreases u.len(),
{
    if u.len() > 0 {
        let x = u + t;
        assert(x[0] == u[0]);
        if pat.len() <= x.len() {
            assert(x.take(pat.len() as int)[0] != pat[0]);
        }
        assert(x.skip(1) =~= u.skip(1) + t);
        lemma_replace_skips_plain(u.skip(1), t, pat, with);
        assert(seq![u[0]] + (u.skip(1) + replace_spec(t, pat, with)) =~= u + replace_spec(
            t,
            pat,
            with,
        ));
    } else {
        assert(u + t =~= t);
        assert(u + replace_spec(t, pat, with) =~= replace_spec(t, pat, with));
    }
}

/// A text `w` that starts with `&`, holds no other `&` and differs from the
/// pattern at position `d` passes through the replacement.
proof fn lemma_replace_skips_entity(
    w: Seq<char>,
    t: Seq<char>,
    pat: Seq<char>,
    with: Seq<char>,
    d: int,
)
    requires
        pat.len() > 0,
        pat[0] == '&',
        w.len() > 0,
        forall|i: int| 1 <= i < w.len() ==> w[i] != '&',
        0 <= d < w.len(),
        d < pat.len(),
        w[d] != pat[d],
    ensures
        replace_spec(w + t, pat, with) == w + replace_spec(t, pat, with),
{
    let x = w + t;
    if pat.len() <= x.len() {
        assert(x.take(pat.len() as int)[d] != pat[d]);
    }
    assert(x.skip(1) =~= w.skip(1) + t);
    lemma_replace_skips_plain(w.skip(1), t, pat, with);
    assert(seq![w[0]] + (w.skip(1) + replace_spec(t, pat, with)) =~= w + replace_spec(
        t,
        pat,
        with,
    ));
}

/// Replacement `k` of the chain turns stage `k - 1` into stage `k`.
proof fn lemma_stage_step(k: int, s: Seq<char>)
    requires
        1 <= k <= 5,
    ensures
        replace_spec(staged(k - 1, s), stage_entity(k), seq![stage_target(k)]) == staged(k, s),
    decreases s.len(),
{
    let pat = stage_entity(k);
    let with = seq![stage_target(k)];
    if s.len() > 0 {
        let c = s[0];
        let rest = s.drop_first();
        let w = stage_char(k - 1, c);
        let t = staged(k - 1, rest);
        lemma_stage_step(k, rest);
        assert(staged(k - 1, s) == w + t);
        assert(staged(k, s) == stage_char(k, c) + staged(k, rest));
        if c == stage_target(k) {
            assert(w =~= pat);
            let x = w + t;
            assert(x.take(pat.len() as int) =~= pat);
            assert(x.skip(pat.len() as int) =~= t);
            assert(stage_char(k, c) =~= with);
        } else {
            assert(stage_char(k, c) == w);
            if w.len() == 1 && w[0] != '&' {
                lemma_replace_skips_plain(w, t, pat, with);
            } else if c == '&' {
                assert(w =~= seq!['&', 'a', 'm', 'p', ';']);
                if k == 3 {
                    lemma_replace_skips_entity(w, t, pat, with, 2);
                } else {
                    lemma_replace_skips_entity(w, t, pat, with, 1);
                }
            } else if c == '<' {
                assert(w =~= seq!['&', 'l', 't', ';']);
                lemma_replace_skips_entity(w, t, pat, with, 1);
            } else if c == '>' {
                assert(w =~= seq!['&', 'g', 't', ';']);
                lemma_replace_skips_entity(w, t, pat, with, 1);
            } else if c == '\'' {
                assert(w =~= seq!['&', 'a', 'p', 'o', 's', ';']);
                if k == 5 {
                    lemma_replace_skips_entity(w, t, pat, with, 2);
                } else {
                    lemma_replace_skips_entity(w, t, pat, with, 1);
                }
            } else {
                assert(c == '"');
                assert(w =~= seq!['&', 'q', 'u', 'o', 't', ';']);
                lemma_replace_skips_entity(w, t, pat, with, 1);
            }
        }
    }
}

/// Stage zero of the chain is the escaped text.
proof fn lemma_stage_zero(s: Seq<char>)
    ensures
        staged(0, s) == escape_spec(s),
    decreases s.len(),
{
    if s.len() > 0 {
        lemma_escape_front(s);
        lemma_stage_zero(s.drop_first());
        assert(stage_char(0, s[0]) == escape_char_spec(s[0]));
    }
}

/// The last stage of the chain is the value itself.
proof fn lemma_stage_last(s: Seq<char>)
    ensures
        staged(5, s) == s,
    decreases s.len(),
{
    if s.len() > 0 {
        lemma_stage_last(s.drop_first());
        let c = s[0];
        if !(c == '<' || c == '>' || c == '\'' || c == '"' || c == '&') {
            assert(escape_char_spec(c) == seq![c]);
        }
        assert(seq![c] + s.drop_first() =~= s);
    }
}

/// Law: an escaped value reads back as the value through the replacements
/// `&lt;` → `<`, `&gt;` → `>`, `&apos;` → `'`, `&quot;` → `"` and, last,
/// `&amp;` → `&`.
pub proof fn lemma_replacement_chain_reads_back(v: Seq<char>)
    ensures
        replace_spec(
            replace_spec(
                replace_spec(
                    replace_spec(replace_spec(escape_spec(v), "&lt;"@, "<"@), "&gt;"@, ">"@),
                    "&apos;"@,
                    "'"@,
                ),
                "&quot;"@,
                "\""@,
            ),
            "&amp;"@,
            "&"@,
        ) == v,
{
    reveal_strlit("&lt;");
    reveal_strlit("<");
    reveal_strlit("&gt;");
    reveal_strlit(">");
    reveal_strlit("&apos;");
    reveal_strlit("'");
    reveal_strlit("&quot;");
    reveal_strlit("\"");
    reveal_strlit("&amp;");
    reveal_strlit("&");
    lemma_stage_zero(v);
    assert("&lt;"@ =~= stage_entity(1));
    assert("<"@ =~= seq![stage_target(1)]);
    lemma_stage_step(1, v);
    assert("&gt;"@ =~= stage_entity(2));
    assert(">"@ =~= seq![stage_target(2)]);
    lemma_stage_step(2, v);
    assert("&apos;"@ =~= stage_entity(3));
    assert("'"@ =~= seq![stage_target(3)]);
    lemma_stage_step(3, v);
    assert("&quot;"@ =~= stage_entity(4));
    assert("\""@ =~= seq![stage_target(4)]);
    lemma_stage_step(4, v);
    assert("&amp;"@ =~= stage_entity(5));
    assert("&"@ =~= seq![stage_target(5)]);
    lemma_stage_step(5, v);
    lemma_stage_last(v);
}

/// The error when macOS runs Espanso from a translocated copy.
pub open spec fn translocation_message() -> Seq<char> {
    "macOS activated app-translocation on Espanso"@
}

/// Registration is refused while macOS runs Espanso from a translocated
/// copy of the app bundle (outside `/Applications`).
pub fn ensure_registration_supported(translocated: bool) -> (res: Result<(), String>)
    ensures
        translocated ==> (res matches Err(m) && m@ == translocation_message()),
        !translocated ==> res is Ok,
{
    if translocated {
        return Err(crate::text::owned("macOS activated app-translocation on Espanso"));
    }
    Ok(())
}

/// The message for a failed `launchctl` run: its trimmed standard error, or
/// its trimmed standard output when standard error is blank.
pub fn launchctl_error(stderr: &str, stdout: &str) -> (res: String)
    ensures
        trim_spec(stderr@).len() == 0 ==> res@ == trim_spec(stdout@),
        trim_spec(stderr@).len() != 0 ==> res@ == trim_spec(stderr@),
{
    let error = trim(stderr);
    if error.as_str().is_empty() {
        trim(stdout)
    } else {
        error
    }
}

} // verus!
