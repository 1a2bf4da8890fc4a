//! Desktop shortcuts that launch an instance: their file name, their
//! location and the launch URL they open.

use vstd::prelude::*;

use crate::error::ErrorKind;
use crate::paths::{
    extension_of, join_path, path_extension, path_file_name, path_joined, path_with_extension,
    replace_extension, separator_free,
};
use crate::text::{
    copy_range, digit_char, char_is_control, chars_of, is_control_char, is_white_space, string_from_chars, trim_chars,
    trim_white, trim_white_end, trim_white_start,
};

verus! {

/// The short product name that shortcut names start with.
pub open spec fn short_product_name() -> Seq<char> {
    "Axolotl"@
}

/// Characters that Windows, macOS or Linux refuse in a file name.
pub open spec fn is_reserved_name_char(c: char) -> bool {
    c == '<' || c == '>' || c == ':' || c == '"' || c == '/' || c == '\\' || c == '|' || c == '?'
        || c == '*'
}

/// `name` with control and reserved characters replaced by `_`.
pub open spec fn sanitized_name(name: Seq<char>) -> Seq<char> {
    Seq::new(
        name.len(),
        |i: int|
            if is_control_char(name[i]) || is_reserved_name_char(name[i]) {
                '_'
            } else {
                name[i]
            },
    )
}

/// `s` without its trailing dots and spaces.
pub open spec fn trim_dots_and_spaces_end(s: Seq<char>) -> Seq<char>
    decreases s.len(),
{
    if s.len() > 0 && (s.last() == '.' || s.last() == ' ') {
        trim_dots_and_spaces_end(s.drop_last())
    } else {
        s
    }
}

/// The instance part of a shortcut name: the sanitized, trimmed name, or
/// `Instance` when nothing is left of it.
pub open spec fn shortcut_label(name: Seq<char>) -> Seq<char> {
    let t = trim_dots_and_spaces_end(trim_white(sanitized_name(name)));
    if t.len() == 0 {
        "Instance"@
    } else {
        t
    }
}

/// Whether `c` is a character that file names refuse.
fn char_is_reserved(c: char) -> (r: bool)
    ensures
        r == is_reserved_name_char(c),
{
    c == '<' || c == '>' || c == ':' || c == '"' || c == '/' || c == '\\' || c == '|' || c == '?'
        || c == '*'
}

/// A shortcut file name for an instance, safe on every supported platform:
/// the product name, a dash and the instance name with control and reserved
/// characters replaced, white space trimmed and trailing dots and spaces
/// removed (`Instance` when nothing is left).
pub fn desktop_shortcut_name(instance_name: &str) -> (r: String)
    ensures
        r@ == short_product_name() + " - "@ + shortcut_label(instance_name@),
{
    let raw = chars_of(instance_name);
    let mut clean: Vec<char> = Vec::new();
    let mut i: usize = 0;
    while i < raw.len()
        invariant
            i <= raw.len(),
            raw@ == instance_name@,
            clean@ == sanitized_name(raw@.take(i as int)),
        decreases raw.len() - i,
    {
        let c = raw[i];
        clean.push(if char_is_control(c) || char_is_reserved(c) { '_' } else { c });
        assert(clean@ =~= sanitized_name(raw@.take(i + 1)));
        i += 1;
    }
    assert(raw@.take(i as int) =~= raw@);
    let trimmed = trim_chars(&clean);
    let mut end = trimmed.len();
    assert(trimmed@.take(trimmed.len() as int) =~= trimmed@);
    while end > 0 && (trimmed[end - 1] == '.' || trimmed[end - 1] == ' ')
        invariant
            end <= trimmed.len(),
            trim_dots_and_spaces_end(trimmed@) == trim_dots_and_spaces_end(
                trimmed@.take(end as int),
            ),
        decreases end,
    {
        assert(trimmed@.take(end as int).drop_last() =~= trimmed@.take(end - 1));
        end -= 1;
    }
    let mut out = chars_of("Axolotl - ");
    let ghost head = out@;
    if end == 0 {
        assert(trim_dots_and_spaces_end(trimmed@) =~= Seq::<char>::empty());
        let mut word = chars_of("Instance");
        out.append(&mut word);
    } else {
        let ghost label = trimmed@.take(end as int);
        assert(trim_dots_and_spaces_end(label) == label);
        let mut kept = copy_range(&trimmed, 0, end);
        assert(trimmed@.subrange(0, end as int) =~= label);
        out.append(&mut kept);
    }
    proof {
        reveal_strlit("Axolotl - ");
        reveal_strlit("Axolotl");
        reveal_strlit(" - ");
        assert("Axolotl - "@ =~= "Axolotl"@ + " - "@);
    }
    string_from_chars(&out)
}

/// A character that every supported platform accepts in a file name.
pub open spec fn portable_name_char(c: char) -> bool {
    !is_control_char(c) && !is_reserved_name_char(c)
}

proof fn lemma_trim_white_start_portable(s: Seq<char>)
    requires
        forall|i: int| 0 <= i < s.len() ==> portable_name_char(#[trigger] s[i]),
    ensures
        forall|i: int|
            0 <= i < trim_white_start(s).len() ==> portable_name_char(
                #[trigger] trim_white_start(s)[i],
            ),
    decreases s.len(),
{
    if s.len() > 0 && is_white_space(s[0]) {
        assert forall|i: int| 0 <= i < s.drop_first().len() implies portable_name_char(
            #[trigger] s.drop_first()[i],
        ) by {
            assert(s.drop_first()[i] == s[i + 1]);
        }
        lemma_trim_white_start_portable(s.drop_first());
        assert(trim_white_start(s) == trim_white_start(s.drop_first()));
    } else {
        assert(trim_white_start(s) == s);
    }
}

proof fn lemma_trim_white_end_portable(s: Seq<char>)
    requires
        forall|i: int| 0 <= i < s.len() ==> portable_name_char(#[trigger] s[i]),
    ensures
        forall|i: int|
            0 <= i < trim_white_end(s).len() ==> portable_name_char(
                #[trigger] trim_white_end(s)[i],
            ),
    decreases s.len(),
{
    if s.len() > 0 && is_white_space(s.last()) {
        assert forall|i: int| 0 <= i < s.drop_last().len() implies portable_name_char(
            #[trigger] s.drop_last()[i],
        ) by {
            assert(s.drop_last()[i] == s[i]);
        }
        lemma_trim_white_end_portable(s.drop_last());
        assert(trim_white_end(s) == trim_white_end(s.drop_last()));
    } else {
        assert(trim_white_end(s) == s);
    }
}

proof fn lemma_trim_dots_portable(s: Seq<char>)
    requires
        forall|i: int| 0 <= i < s.len() ==> portable_name_char(#[trigger] s[i]),
    ensures
        forall|i: int|
            0 <= i < trim_dots_and_spaces_end(s).len() ==> portable_name_char(
                #[trigger] trim_dots_and_spaces_end(s)[i],
            ),
        trim_dots_and_spaces_end(s).len() > 0 ==> trim_dots_and_spaces_end(s).last() != '.'
            && trim_dots_and_spaces_end(s).last() != ' ',
    decreases s.len(),
{
    if s.len() > 0 && (s.last() == '.' || s.last() == ' ') {
        assert forall|i: int| 0 <= i < s.drop_last().len() implies portable_name_char(
            #[trigger] s.drop_last()[i],
        ) by {
            assert(s.drop_last()[i] == s[i]);
        }
        lemma_trim_dots_portable(s.drop_last());
    }
}

/// Shortcut names are safe on every supported platform: every character is
/// accepted in file names, the name does not end in a dot or a space, and
/// the instance part is never empty.
pub proof fn law_shortcut_name_is_portable(instance_name: Seq<char>)
    ensures
        shortcut_label(instance_name).len() > 0,
        ({
            let r = short_product_name() + " - "@ + shortcut_label(instance_name);
            &&& forall|i: int| 0 <= i < r.len() ==> portable_name_char(#[trigger] r[i])
            &&& r.last() != '.'
            &&& r.last() != ' '
        }),
{
    reveal_strlit("Axolotl");
    reveal_strlit(" - ");
    reveal_strlit("Instance");
    let s = sanitized_name(instance_name);
    assert forall|i: int| 0 <= i < s.len() implies portable_name_char(#[trigger] s[i]) by {}
    lemma_trim_white_start_portable(s);
    lemma_trim_white_end_portable(trim_white_start(s));
    let t = trim_white(s);
    lemma_trim_dots_portable(t);
    let label = shortcut_label(instance_name);
    assert forall|i: int| 0 <= i < label.len() implies portable_name_char(#[trigger] label[i]) by {
        if trim_dots_and_spaces_end(t).len() == 0 {
            assert(label == "Instance"@);
        }
    }
    let head = short_product_name() + " - "@;
    let r = head + label;
    assert forall|i: int| 0 <= i < r.len() implies portable_name_char(#[trigger] r[i]) by {
        if i >= head.len() {
            assert(r[i] == label[i - head.len()]);
        }
    }
    assert(r.last() == label.last());
}

/// Refuses a shortcut that would launch both a server and a world.
pub fn check_shortcut_target(server: &Option<String>, singleplayer_world: &Option<String>) -> (r:
    Result<(), ErrorKind>)
    ensures
        server is Some && singleplayer_world is Some ==> (r matches Err(ErrorKind::OtherError(m))
            && m@ == "shortcut cannot launch both a server and a singleplayer world"@),
        !(server is Some && singleplayer_world is Some) ==> r is Ok,
{
    if server.is_some() && singleplayer_world.is_some() {
        return Err(
            ErrorKind::OtherError(
                "shortcut cannot launch both a server and a singleplayer world".to_string(),
            ),
        );
    }
    Ok(())
}

/// `path` with the extension `extension`, unless it already has exactly it.
/// A path with a file name then carries the extension, so a second call
/// leaves the path as it is.
pub fn shortcut_path_with_extension(path: String, extension: &str) -> (r: String)
    requires
        separator_free(extension@),
    ensures
        path_extension(path@) == Some(extension@) ==> r@ == path@,
        path_extension(path@) != Some(extension@) ==> r@ == path_with_extension(
            path@,
            extension@,
        ),
        path_file_name(path@) is Some && extension@.len() > 0 && !extension@.contains('.')
            ==> path_extension(r@) == Some(extension@),
{
    let current = extension_of(path.as_str());
    let matches = match &current {
        Some(e) => crate::text::chars_equal(&chars_of(e.as_str()), &chars_of(extension)),
        None => false,
    };
    if matches {
        path
    } else {
        replace_extension(path.as_str(), extension)
    }
}

/// Where the shortcut is written: the requested path, or the desktop with
/// a file named after the instance; either way with the shortcut extension.
pub fn shortcut_output_path(
    output_path: Option<String>,
    desktop_dir: &str,
    instance_name: &str,
    extension: &str,
) -> (r: String)
    requires
        separator_free(extension@),
    ensures
        ({
            let chosen = match output_path {
                Some(p) => p@,
                None => path_joined(
                    desktop_dir@,
                    short_product_name() + " - "@ + shortcut_label(instance_name@) + "."@
                        + extension@,
                ),
            };
            &&& path_extension(chosen) == Some(extension@) ==> r@ == chosen
            &&& path_extension(chosen) != Some(extension@) ==> r@ == path_with_extension(
                chosen,
                extension@,
            )
            &&& path_file_name(chosen) is Some && extension@.len() > 0 && !extension@.contains(
                '.',
            ) ==> path_extension(r@) == Some(extension@)
        }),
{
    let chosen = match output_path {
        Some(p) => p,
        None => {
            let mut file = chars_of(desktop_shortcut_name(instance_name).as_str());
            file.push('.');
            let ghost head = file@;
            let mut ext = chars_of(extension);
            file.append(&mut ext);
            proof {
                reveal_strlit(".");
                assert(head =~= short_product_name() + " - "@ + shortcut_label(instance_name@)
                    + "."@);
            }
            let name = string_from_chars(&file);
            join_path(desktop_dir, name.as_str())
        },
    };
    shortcut_path_with_extension(chosen, extension)
}


/// Whether the form encoding keeps byte `b` as it is.
pub open spec fn form_keeps_byte(b: u8) -> bool {
    b == 0x2A || b == 0x2D || b == 0x2E || (0x30 <= b <= 0x39) || (0x41 <= b <= 0x5A) || b == 0x5F
        || (0x61 <= b <= 0x7A)
}

/// Upper-case hexadecimal digit for `n < 16`.
pub open spec fn hex_upper_digit(n: int) -> char {
    if n < 10 {
        digit_char(n)
    } else if n == 10 {
        'A'
    } else if n == 11 {
        'B'
    } else if n == 12 {
        'C'
    } else if n == 13 {
        'D'
    } else if n == 14 {
        'E'
    } else {
        'F'
    }
}

/// The `application/x-www-form-urlencoded` form of one byte.
pub open spec fn form_encode_byte(b: u8) -> Seq<char> {
    if form_keeps_byte(b) {
        seq![b as char]
    } else if b == 0x20 {
        seq!['+']
    } else {
        seq!['%', hex_upper_digit((b / 16) as int), hex_upper_digit((b % 16) as int)]
    }
}

/// The `application/x-www-form-urlencoded` form of a byte string.
pub open spec fn form_encode(bytes: Seq<u8>) -> Seq<char>
    decreases bytes.len(),
{
    if bytes.len() == 0 {
        Seq::<char>::empty()
    } else {
        form_encode(bytes.drop_last()) + form_encode_byte(bytes.last())
    }
}

/// The form encoding of the UTF-8 bytes of `s`.
pub open spec fn form_encoded(s: Seq<char>) -> Seq<char> {
    form_encode(vstd::utf8::encode_utf8(s))
}

/// One `name=value` pair of a query, both form encoded.
pub open spec fn pair_text(pair: (Seq<char>, Seq<char>)) -> Seq<char> {
    form_encoded(pair.0) + "="@ + form_encoded(pair.1)
}

/// The pairs of a query, form encoded and joined with `&`.
pub open spec fn query_text(pairs: Seq<(Seq<char>, Seq<char>)>) -> Seq<char>
    decreases pairs.len(),
{
    if pairs.len() == 0 {
        Seq::<char>::empty()
    } else if pairs.len() == 1 {
        pair_text(pairs[0])
    } else {
        query_text(pairs.drop_last()) + "&"@ + pair_text(pairs.last())
    }
}

/// The character sequences of a list of string pairs.
pub open spec fn pair_views(pairs: Seq<(String, String)>) -> Seq<(Seq<char>, Seq<char>)> {
    Seq::new(pairs.len(), |i: int| (pairs[i].0@, pairs[i].1@))
}

/// What `url::Url::parse(text)` gives, as its serialization `Url::as_str`.
pub uninterp spec fn url_serialization(text: Seq<char>) -> Option<Seq<char>>;

/// `base` parsed as a URL, with `pairs` appended to its query.
///
/// Calls `url::Url::parse` and then `Url::query_pairs_mut().extend_pairs`,
/// and returns `Url::as_str`. Parsing fails exactly when
/// `url_serialization(base)` is nothing. When the parsed URL has neither a
/// query nor a fragment, the source of `query_pairs_mut` adds `?` and
/// `form_urlencoded::Serializer::append_pair` writes each pair as the form
/// encoding of its name, `=` and the form encoding of its value, separated
/// by `&`; what it does to an existing query or fragment is left unsaid.
/// For the launch base `axolotl://launch` the source's parser reads the
/// scheme `axolotl`, the opaque host `launch` and an empty path, with no
/// query and no fragment, and serializes it back to the same text.
#[verifier::external_body]
fn url_with_query_pairs(base: &str, pairs: &Vec<(String, String)>) -> (r: Option<String>)
    ensures
        (r is Some) == (url_serialization(base@) is Some),
        r matches Some(u) ==> (url_serialization(base@) matches Some(b) && ((!b.contains('?')
            && !b.contains('#')) ==> u@ == b + "?"@ + query_text(pair_views(pairs@)))),
        r is Some || base@ != launch_base(),
        r matches Some(u) ==> (base@ == launch_base() ==> u@ == launch_base() + "?"@ + query_text(
            pair_views(pairs@),
        )),
{
    let mut url = url::Url::parse(base).ok()?;
    url.query_pairs_mut().extend_pairs(pairs.iter());
    Some(url.as_str().to_string())
}

/// The base of every launch URL.
pub open spec fn launch_base() -> Seq<char> {
    "axolotl://launch"@
}

/// The query pairs of a launch URL: the instance, then the server to join,
/// or else the singleplayer world to open.
pub open spec fn launch_pairs(
    instance_id: Seq<char>,
    server: Option<Seq<char>>,
    singleplayer_world: Option<Seq<char>>,
) -> Seq<(Seq<char>, Seq<char>)> {
    let first = seq![("instance_id"@, instance_id)];
    match server {
        Some(s) => first.push(("server"@, s)),
        None => match singleplayer_world {
            Some(w) => first.push(("singleplayer_world"@, w)),
            None => first,
        },
    }
}

/// The optional character sequence of an optional string.
pub open spec fn opt_chars(s: Option<String>) -> Option<Seq<char>> {
    match s {
        Some(v) => Some(v@),
        None => None,
    }
}

/// The query pairs of a launch URL (see `launch_pairs`).
pub fn launch_query_pairs(
    instance_id: String,
    server: Option<String>,
    singleplayer_world: Option<String>,
) -> (r: Vec<(String, String)>)
    ensures
        pair_views(r@) == launch_pairs(instance_id@, opt_chars(server), opt_chars(singleplayer_world)),
{
    let ghost first = seq![("instance_id"@, instance_id@)];
    let mut pairs: Vec<(String, String)> = Vec::new();
    pairs.push(("instance_id".to_string(), instance_id));
    assert(pair_views(pairs@) =~= first);
    match server {
        Some(s) => {
            pairs.push(("server".to_string(), s));
        },
        None => match singleplayer_world {
            Some(w) => {
                pairs.push(("singleplayer_world".to_string(), w));
            },
            None => {},
        },
    }
    assert(pair_views(pairs@) =~= launch_pairs(
        first[0].1,
        opt_chars(server),
        opt_chars(singleplayer_world),
    ));
    pairs
}

/// The URL that launches an instance, optionally joining a server or
/// opening a singleplayer world (the server wins when both are given): the
/// launch base, `?`, then the form-encoded query pairs.
pub fn instance_launch_url(
    instance_id: String,
    server: Option<String>,
    singleplayer_world: Option<String>,
) -> (r: String)
    ensures
        r@ == launch_base() + "?"@ + query_text(
            launch_pairs(instance_id@, opt_chars(server), opt_chars(singleplayer_world)),
        ),
{
    let pairs = launch_query_pairs(instance_id, server, singleplayer_world);
    proof {
        reveal_strlit("axolotl://launch");
    }
    match url_with_query_pairs("axolotl://launch", &pairs) {
        Some(u) => u,
        None => {
            proof {
                assert(false);
            }
            String::new()
        },
    }
}

} // verus!

verus! {

/// A launch URL always names the instance first; it adds one more pair only
/// when a server or a world is given: the server when there is one, the
/// world otherwise. With neither, the instance is the only pair.
pub proof fn law_launch_pairs_name_only_what_is_given(
    instance_id: Seq<char>,
    server: Option<Seq<char>>,
    singleplayer_world: Option<Seq<char>>,
)
    ensures
        ({
            let p = launch_pairs(instance_id, server, singleplayer_world);
            &&& p.len() == if server is Some || singleplayer_world is Some {
                2int
            } else {
                1int
            }
            &&& p[0] == ("instance_id"@, instance_id)
            &&& server matches Some(s) ==> p[1] == ("server"@, s)
            &&& server is None ==> (singleplayer_world matches Some(w) ==> p[1] == (
                "singleplayer_world"@,
                w,
            ))
            &&& forall|i: int| 0 <= i < p.len() && p[i].0 == "server"@ ==> server == Some(p[i].1)
            &&& forall|i: int|
                0 <= i < p.len() && p[i].0 == "singleplayer_world"@ ==> server is None
                    && singleplayer_world == Some(p[i].1)
        }),
{
    reveal_strlit("instance_id");
    reveal_strlit("server");
    reveal_strlit("singleplayer_world");
    let p = launch_pairs(instance_id, server, singleplayer_world);
    assert("instance_id"@ != "server"@) by {
        assert("instance_id"@.len() != "server"@.len());
    }
    assert("instance_id"@ != "singleplayer_world"@) by {
        assert("instance_id"@.len() != "singleplayer_world"@.len());
    }
    assert("server"@ != "singleplayer_world"@) by {
        assert("server"@.len() != "singleplayer_world"@.len());
    }
}

} // verus!
