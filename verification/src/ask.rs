//! The ask pipeline shared by the CLI, the MCP server and the
//! OpenAI-compatible endpoint: checking the message, assembling the
//! constraint text that is injected once per conversation, deciding whether
//! to inject it, building the request, and reading the daemon's replies.

use vstd::prelude::*;
use crate::protocol::{opt_view, Ask, AskPayload, AskPayloadView, AskResultData, AskResultDataView};
use crate::state::{
    conversation_key, initialized, is_initialized, key_from_conversation, law_query_after_mark, marked,
    InitRecordView, State,
};
use crate::text::{
    strings_view, chars_of, concat, contains, decimal, lemma_concat_first, lemma_concat_push,
    lemma_contains_iff_occurs, lemma_decimal_digits, lemma_decimal_injective, lemma_occurs_at_extend,
    occurs_at, push_char, push_decimal,
};

verus! {

broadcast use vstd::string::group_string_axioms;

/// Whether `c` has the Unicode `White_Space` property (what `char::is_whitespace`
/// and `str::trim` go by): U+0009 to U+000D, U+0020, U+0085, U+00A0, U+1680,
/// U+2000 to U+200A, U+2028, U+2029, U+202F, U+205F and U+3000.
pub open spec fn char_is_whitespace(c: char) -> bool {
    ('\u{9}' <= c <= '\u{d}') || c == ' ' || c == '\u{85}' || c == '\u{a0}' || c == '\u{1680}'
        || ('\u{2000}' <= c <= '\u{200a}') || c == '\u{2028}' || c == '\u{2029}' || c == '\u{202f}'
        || c == '\u{205f}' || c == '\u{3000}'
}

/// Whether `c` is Unicode white space.
pub fn is_whitespace(c: char) -> (r: bool)
    ensures
        r == char_is_whitespace(c),
{
    ('\u{9}' <= c && c <= '\u{d}') || c == ' ' || c == '\u{85}' || c == '\u{a0}' || c == '\u{1680}'
        || ('\u{2000}' <= c && c <= '\u{200a}') || c == '\u{2028}' || c == '\u{2029}' || c == '\u{202f}'
        || c == '\u{205f}' || c == '\u{3000}'
}

/// The message is empty once surrounding whitespace is trimmed.
pub open spec fn blank(s: Seq<char>) -> bool {
    forall|i: int| 0 <= i < s.len() ==> char_is_whitespace(#[trigger] s[i])
}

/// True if `message` holds nothing but whitespace (the pipeline refuses it).
pub fn message_is_blank(message: &str) -> (r: bool)
    ensures
        r == blank(message@),
{
    let cs = chars_of(message);
    let mut i: usize = 0;
    while i < cs.len()
        invariant
            cs@ == message@,
            i <= cs@.len(),
            forall|j: int| 0 <= j < i ==> char_is_whitespace(#[trigger] cs@[j]),
        decreases cs.len() - i,
    {
        if !is_whitespace(cs[i]) {
            return false;
        }
        i += 1;
    }
    true
}

/// The 64-bit hash that `std`'s `DefaultHasher::new()` gives a string.
pub uninterp spec fn str_hash(s: Seq<char>) -> u64;

/// `str::hash` into a fresh `std::collections::hash_map::DefaultHasher`,
/// then `Hasher::finish`. The hasher built by `DefaultHasher::new()` is not
/// seeded per process; the value is left to the name `str_hash`.
#[verifier::external_body]
fn hash_str(s: &str) -> (r: u64)
    ensures
        r == str_hash(s@),
{
    let mut h = std::collections::hash_map::DefaultHasher::new();
    std::hash::Hash::hash(s, &mut h);
    std::hash::Hasher::finish(&h)
}

/// The lowercase hexadecimal digit for `d < 16`.
pub open spec fn hex_char(d: nat) -> char {
    if d < 10 {
        (48 + d) as char
    } else {
        (87 + d) as char
    }
}

/// The last `width` hexadecimal digits of `n`, zero-padded.
pub open spec fn hex_digits(n: nat, width: nat) -> Seq<char>
    decreases width,
{
    if width == 0 {
        Seq::empty()
    } else {
        hex_digits(n / 16, (width - 1) as nat).push(hex_char(n % 16))
    }
}

fn push_hex(s: &mut String, n: u64, width: u8)
    ensures
        final(s)@ == old(s)@ + hex_digits(n as nat, width as nat),
    decreases width,
{
    if width > 0 {
        push_hex(s, n / 16, width - 1);
        let d = (n % 16) as u8;
        let c = if d < 10 { (48u8 + d) as char } else { (87u8 + d) as char };
        push_char(s, c);
        assert(s@ =~= old(s)@ + hex_digits(n as nat, width as nat));
    } else {
        assert(s@ =~= old(s)@ + hex_digits(n as nat, width as nat));
    }
}

/// The fingerprint of a constraint text: its hash as 16 lowercase hex digits.
pub open spec fn fingerprint_of(s: Seq<char>) -> Seq<char> {
    hex_digits(str_hash(s) as nat, 16)
}

/// A hash written as a fingerprint: 16 lowercase hex digits, zero-padded.
pub fn fingerprint_of_hash(h: u64) -> (r: String)
    ensures
        r@ == hex_digits(h as nat, 16),
{
    let mut r = String::new();
    push_hex(&mut r, h, 16);
    r
}

/// A fingerprint of `s`: the hex digits of its `DefaultHasher` hash.
pub fn fingerprint(s: &str) -> (r: String)
    ensures
        r@ == fingerprint_of(s@),
{
    fingerprint_of_hash(hash_str(s))
}


/// The index of the last `.` in `s`, if any.
pub open spec fn last_dot(s: Seq<char>) -> Option<int>
    decreases s.len(),
{
    if s.len() == 0 {
        None
    } else if s.last() == '.' {
        Some(s.len() - 1)
    } else {
        last_dot(s.drop_last())
    }
}

/// The extension of a file name, as `Path::extension` reads it: what follows
/// the last `.`, where that `.` is not the name's first character; none for
/// `..`.
pub open spec fn extension_of(name: Seq<char>) -> Option<Seq<char>> {
    if name == seq!['.', '.'] {
        None
    } else {
        match last_dot(name) {
            Some(i) => if i > 0 {
                Some(name.subrange(i + 1, name.len() as int))
            } else {
                None
            },
            None => None,
        }
    }
}

/// Skill files are the markdown files: extension `md` or `mdx`.
pub open spec fn is_skill_file(name: Seq<char>) -> bool {
    extension_of(name) == Some(seq!['m', 'd']) || extension_of(name) == Some(seq!['m', 'd', 'x'])
}

/// Whether a file with this name is read from a `--skills` directory.
pub fn is_skill_file_name(name: &str) -> (r: bool)
    ensures
        r == is_skill_file(name@),
{
    let cs = chars_of(name);
    let n = cs.len();
    if n == 2 && cs[0] == '.' && cs[1] == '.' {
        assert(cs@ =~= seq!['.', '.']);
        return false;
    }
    assert(cs@ != seq!['.', '.']) by {
        if cs@ == seq!['.', '.'] {
            assert(cs@.len() == 2 && cs@[0] == '.' && cs@[1] == '.');
        }
    }
    let mut i = n;
    assert(cs@.take(n as int) =~= cs@);
    while i > 0 && cs[i - 1] != '.'
        invariant
            i <= cs@.len(),
            cs@ == name@,
            last_dot(cs@) == last_dot(cs@.take(i as int)),
        decreases i,
    {
        assert(cs@.take(i as int).drop_last() =~= cs@.take(i - 1));
        i -= 1;
    }
    if i == 0 {
        assert(cs@.take(0) =~= Seq::<char>::empty());
        return false;
    }
    assert(cs@.take(i as int).last() == '.');
    let dot = i - 1;
    if dot == 0 {
        return false;
    }
    let ext_len = n - i;
    let md = ext_len >= 2 && ext_len <= 3 && cs[i] == 'm' && cs[i + 1] == 'd' && (ext_len == 2 || cs[i + 2] == 'x');
    proof {
        let ext = cs@.subrange(i as int, n as int);
        if ext_len == 2 && cs@[i as int] == 'm' && cs@[i + 1] == 'd' {
            assert(ext =~= seq!['m', 'd']);
        }
        if ext_len == 3 && cs@[i as int] == 'm' && cs@[i + 1] == 'd' && cs@[i + 2] == 'x' {
            assert(ext =~= seq!['m', 'd', 'x']);
        }
        if ext == seq!['m', 'd'] {
            assert(ext.len() == 2 && ext[0] == 'm' && ext[1] == 'd');
        }
        if ext == seq!['m', 'd', 'x'] {
            assert(ext.len() == 3 && ext[0] == 'm' && ext[1] == 'd' && ext[2] == 'x');
        }
    }
    md
}

/// `a` comes before `b`: compared character by character by code point, a
/// proper prefix first (the order of their UTF-8 bytes).
pub open spec fn name_lt(a: Seq<char>, b: Seq<char>) -> bool
    decreases a.len(),
{
    if a.len() == 0 {
        b.len() > 0
    } else if b.len() == 0 {
        false
    } else if a[0] != b[0] {
        (a[0] as u32) < (b[0] as u32)
    } else {
        name_lt(a.drop_first(), b.drop_first())
    }
}

proof fn lemma_name_lt_irreflexive(a: Seq<char>)
    ensures
        !name_lt(a, a),
    decreases a.len(),
{
    if a.len() > 0 {
        lemma_name_lt_irreflexive(a.drop_first());
    }
}

proof fn lemma_name_lt_transitive(a: Seq<char>, b: Seq<char>, c: Seq<char>)
    requires
        name_lt(a, b),
        name_lt(b, c),
    ensures
        name_lt(a, c),
    decreases a.len(),
{
    if a.len() > 0 && b.len() > 0 && c.len() > 0 && a[0] == b[0] && b[0] == c[0] {
        lemma_name_lt_transitive(a.drop_first(), b.drop_first(), c.drop_first());
    }
}

/// Whether `a` comes before `b` in the order of [`name_lt`].
fn name_lt_exec(a: &Vec<char>, b: &Vec<char>) -> (r: bool)
    ensures
        r == name_lt(a@, b@),
{
    let mut i: usize = 0;
    assert(a@.skip(0) =~= a@ && b@.skip(0) =~= b@);
    while i < a.len() && i < b.len() && a[i] == b[i]
        invariant
            i <= a@.len(),
            i <= b@.len(),
            name_lt(a@, b@) == name_lt(a@.skip(i as int), b@.skip(i as int)),
        decreases a.len() - i,
    {
        assert(a@.skip(i as int).drop_first() =~= a@.skip(i + 1));
        assert(b@.skip(i as int).drop_first() =~= b@.skip(i + 1));
        i += 1;
    }
    if i == a.len() {
        i < b.len()
    } else if i == b.len() {
        false
    } else {
        assert(a@.skip(i as int)[0] == a@[i as int] && b@.skip(i as int)[0] == b@[i as int]);
        (a[i] as u32) < (b[i] as u32)
    }
}

/// The skill files among the names, in the order given.
pub open spec fn skill_names(names: Seq<Seq<char>>) -> Seq<Seq<char>>
    decreases names.len(),
{
    if names.len() == 0 {
        Seq::empty()
    } else {
        let rest = skill_names(names.drop_last());
        if is_skill_file(names.last()) {
            rest.push(names.last())
        } else {
            rest
        }
    }
}

/// The names in ascending [`name_lt`] order.
pub open spec fn names_sorted(names: Seq<Seq<char>>) -> bool {
    forall|i: int, j: int| 0 <= i < j < names.len() ==> !name_lt(#[trigger] names[j], #[trigger] names[i])
}

/// The skill files of a directory listing, in the order they are injected:
/// the markdown names (see [`is_skill_file`]), sorted by [`name_lt`].
pub fn skill_files(names: &Vec<String>) -> (r: Vec<String>)
    ensures
        strings_view(r@).to_multiset() == skill_names(strings_view(names@)).to_multiset(),
        names_sorted(strings_view(r@)),
{
    broadcast use vstd::seq_lib::group_to_multiset_ensures;
    let ghost all = strings_view(names@);
    let mut r: Vec<String> = Vec::new();
    let mut i: usize = 0;
    proof {
        assert(strings_view(r@) =~= Seq::<Seq<char>>::empty());
        assert(all.take(0) =~= Seq::<Seq<char>>::empty());
        assert(skill_names(all.take(0)) =~= Seq::<Seq<char>>::empty());
    }
    while i < names.len()
        invariant
            i <= names@.len(),
            all == strings_view(names@),
            strings_view(r@).to_multiset() == skill_names(all.take(i as int)).to_multiset(),
            names_sorted(strings_view(r@)),
        decreases names.len() - i,
    {
        assert(all.take(i + 1).drop_last() =~= all.take(i as int));
        assert(all.take(i + 1).last() == names@[i as int]@);
        if is_skill_file_name(names[i].as_str()) {
            let x = chars_of(names[i].as_str());
            let mut p: usize = 0;
            while p < r.len() && !name_lt_exec(&x, &chars_of(r[p].as_str()))
                invariant
                    p <= r@.len(),
                    x@ == names@[i as int]@,
                    forall|q: int| 0 <= q < p ==> !name_lt(x@, #[trigger] r@[q]@),
                decreases r.len() - p,
            {
                p += 1;
            }
            let ghost old_r = strings_view(r@);
            r.insert(p, names[i].clone());
            proof {
                let t = strings_view(r@);
                assert(t =~= old_r.insert(p as int, x@));
                vstd::seq_lib::to_multiset_insert(old_r, p as int, x@);
                vstd::seq_lib::to_multiset_build(skill_names(all.take(i as int)), x@);
                assert forall|a: int, b: int| 0 <= a < b < t.len() implies !name_lt(#[trigger] t[b], #[trigger] t[a]) by {
                    if a < p && b == p {
                    } else if a == p && b > p {
                        assert(t[b] == old_r[b - 1]);
                        assert(name_lt(x@, old_r[p as int]));
                        if name_lt(old_r[b - 1], x@) {
                            lemma_name_lt_transitive(old_r[b - 1], x@, old_r[p as int]);
                            if b - 1 == p {
                                lemma_name_lt_irreflexive(old_r[p as int]);
                            }
                        }
                    } else if b < p {
                        assert(t[a] == old_r[a] && t[b] == old_r[b]);
                    } else if a < p && b > p {
                        assert(t[a] == old_r[a] && t[b] == old_r[b - 1]);
                    } else {
                        assert(t[a] == old_r[a - 1] && t[b] == old_r[b - 1]);
                    }
                }
            }
        }
        i += 1;
    }
    assert(all.take(names@.len() as int) =~= all);
    r
}

/// The contents of one `--skills` directory: its path, and the markdown
/// files in it (file name, content) in the order they are injected.
pub struct SkillDir {
    pub dir: String,
    pub files: Vec<(String, String)>,
}

/// Why the constraint text could not be assembled: a `--skills` directory
/// that holds no markdown file.
pub enum InitError {
    NoSkillFiles(String),
}

/// Pairs of strings, by their abstract values.
pub open spec fn pairs_view(v: Seq<(String, String)>) -> Seq<(Seq<char>, Seq<char>)> {
    v.map_values(|p: (String, String)| (p.0@, p.1@))
}

/// The skill directories, by their abstract values: (directory, files).
pub open spec fn dirs_view(v: Seq<SkillDir>) -> Seq<(Seq<char>, Seq<(Seq<char>, Seq<char>)>)> {
    v.map_values(|d: SkillDir| (d.dir@, pairs_view(d.files@)))
}

/// `parts[0] + sep + parts[1] + sep + ...`.
pub open spec fn join(parts: Seq<Seq<char>>, sep: Seq<char>) -> Seq<char>
    decreases parts.len(),
{
    if parts.len() == 0 {
        Seq::empty()
    } else if parts.len() == 1 {
        parts[0]
    } else {
        join(parts.drop_last(), sep) + sep + parts.last()
    }
}

/// The section for a `--system` file.
pub open spec fn constraint_part(path: Seq<char>, content: Seq<char>) -> Seq<char> {
    "## Constraint ("@ + path + ")\n"@ + content
}

/// The section for a skill file.
pub open spec fn skill_part(name: Seq<char>, content: Seq<char>) -> Seq<char> {
    "## Skill: "@ + name + "\n"@ + content
}

/// The sections of the `--system` files, in order.
pub open spec fn system_parts(system: Seq<(Seq<char>, Seq<char>)>) -> Seq<Seq<char>> {
    system.map_values(|f: (Seq<char>, Seq<char>)| constraint_part(f.0, f.1))
}

/// The sections of the skill files, directory by directory.
pub open spec fn skill_parts(dirs: Seq<(Seq<char>, Seq<(Seq<char>, Seq<char>)>)>) -> Seq<Seq<char>>
    decreases dirs.len(),
{
    if dirs.len() == 0 {
        Seq::empty()
    } else {
        skill_parts(dirs.drop_last()) + dirs.last().1.map_values(
            |f: (Seq<char>, Seq<char>)| skill_part(f.0, f.1),
        )
    }
}

/// The contents of the given files, in order.
pub open spec fn contents(files: Seq<(Seq<char>, Seq<char>)>) -> Seq<Seq<char>> {
    files.map_values(|f: (Seq<char>, Seq<char>)| f.1)
}

/// The contents of the skill files, directory by directory.
pub open spec fn skill_contents(dirs: Seq<(Seq<char>, Seq<(Seq<char>, Seq<char>)>)>) -> Seq<Seq<char>>
    decreases dirs.len(),
{
    if dirs.len() == 0 {
        Seq::empty()
    } else {
        skill_contents(dirs.drop_last()) + contents(dirs.last().1)
    }
}

/// The line that asks the AI to keep the constraints.
pub open spec fn constraints_header() -> Seq<char> {
    "\n\n[SYSTEM CONSTRAINTS \u{2014} loaded once at the start of this conversation. Please acknowledge these rules and follow them for the rest of this conversation. Do not repeat them back, do not ask about them again; they apply to every follow-up message.]\n"@
}

/// The text injected into a conversation for the given sections.
pub open spec fn init_text(parts: Seq<Seq<char>>) -> Seq<char> {
    join(parts, "\n\n"@) + "\n"@ + (if parts.len() > 0 { constraints_header() } else { Seq::empty() })
        + "\n\n[Acknowledge by replying OK.]"@
}

/// The index of the first directory without markdown files, from `i` on.
pub open spec fn first_empty_dir(dirs: Seq<(Seq<char>, Seq<(Seq<char>, Seq<char>)>)>, i: int) -> Option<int>
    decreases dirs.len() - i,
{
    if i < 0 || i >= dirs.len() {
        None
    } else if dirs[i].1.len() == 0 {
        Some(i)
    } else {
        first_empty_dir(dirs, i + 1)
    }
}

/// One content as the fingerprint reads it: its length in characters, a
/// colon, then the content, so that where one file ends and the next begins
/// is part of what is hashed.
pub open spec fn framed(content: Seq<char>) -> Seq<char> {
    decimal(content.len()) + seq![':'] + content
}

/// What the fingerprint hashes: each content framed, in order.
pub open spec fn fingerprint_input(contents: Seq<Seq<char>>) -> Seq<char> {
    concat(contents.map_values(|c: Seq<char>| framed(c)))
}

proof fn lemma_fingerprint_input_push(contents: Seq<Seq<char>>, c: Seq<char>)
    ensures
        fingerprint_input(contents.push(c)) == fingerprint_input(contents) + framed(c),
{
    assert(contents.push(c).map_values(|c: Seq<char>| framed(c)) =~= contents.map_values(
        |c: Seq<char>| framed(c),
    ).push(framed(c)));
    lemma_concat_push(contents.map_values(|c: Seq<char>| framed(c)), framed(c));
}

/// Appends `content`, framed, to the fingerprint input.
fn append_framed(input: &mut String, content: &str)
    ensures
        final(input)@ == old(input)@ + framed(content@),
{
    let n = chars_of(content).len();
    push_decimal(input, n as u64);
    push_char(input, ':');
    input.append(content);
    assert(input@ =~= old(input)@ + framed(content@));
}

proof fn lemma_framed_split(x: Seq<char>, y: Seq<char>, rx: Seq<char>, ry: Seq<char>)
    requires
        framed(x) + rx == framed(y) + ry,
    ensures
        x == y,
        rx == ry,
{
    let dx = decimal(x.len());
    let dy = decimal(y.len());
    lemma_decimal_digits(x.len());
    lemma_decimal_digits(y.len());
    let s = framed(x) + rx;
    assert(s == dx + (seq![':'] + x + rx)) by {
        assert(framed(x) + rx =~= dx + (seq![':'] + x + rx));
    }
    assert(s == dy + (seq![':'] + y + ry)) by {
        assert(framed(y) + ry =~= dy + (seq![':'] + y + ry));
    }
    if dx.len() < dy.len() {
        assert(s[dx.len() as int] == ':');
        assert(s[dx.len() as int] == dy[dx.len() as int]);
        assert(false);
    }
    if dy.len() < dx.len() {
        assert(s[dy.len() as int] == ':');
        assert(s[dy.len() as int] == dx[dy.len() as int]);
        assert(false);
    }
    assert(dx =~= s.subrange(0, dx.len() as int));
    assert(dy =~= s.subrange(0, dy.len() as int));
    lemma_decimal_injective(x.len(), y.len());
    let start: int = dx.len() as int + 1;
    assert(x =~= s.subrange(start, start + x.len() as int));
    assert(y =~= s.subrange(start, start + y.len() as int));
    assert(rx =~= s.subrange(start + x.len() as int, s.len() as int));
    assert(ry =~= s.subrange(start + y.len() as int, s.len() as int));
}

/// The fingerprint input determines the list of contents: two lists with
/// the same input are the same list, so two constraint sets whose files
/// differ in any content (or in where one ends and the next begins) are
/// hashed from different inputs.
pub proof fn law_fingerprint_input_determines_contents(a: Seq<Seq<char>>, b: Seq<Seq<char>>)
    requires
        fingerprint_input(a) == fingerprint_input(b),
    ensures
        a == b,
    decreases a.len(),
{
    let fa = a.map_values(|c: Seq<char>| framed(c));
    let fb = b.map_values(|c: Seq<char>| framed(c));
    if a.len() == 0 && b.len() == 0 {
        assert(a =~= b);
    } else if a.len() == 0 || b.len() == 0 {
        let (n, e) = if a.len() == 0 { (b, fb) } else { (a, fa) };
        lemma_concat_first(e);
        lemma_decimal_digits(n[0].len());
        assert(e[0] == framed(n[0]));
        assert(concat(e).len() > 0);
        assert(fa.len() == 0 ==> concat(fa) =~= Seq::<char>::empty());
        assert(fb.len() == 0 ==> concat(fb) =~= Seq::<char>::empty());
    } else {
        lemma_concat_first(fa);
        lemma_concat_first(fb);
        assert(fa[0] == framed(a[0]));
        assert(fb[0] == framed(b[0]));
        lemma_framed_split(a[0], b[0], concat(fa.drop_first()), concat(fb.drop_first()));
        assert(fa.drop_first() =~= a.drop_first().map_values(|c: Seq<char>| framed(c)));
        assert(fb.drop_first() =~= b.drop_first().map_values(|c: Seq<char>| framed(c)));
        law_fingerprint_input_determines_contents(a.drop_first(), b.drop_first());
        assert(a =~= seq![a[0]] + a.drop_first());
        assert(b =~= seq![b[0]] + b.drop_first());
    }
}

/// What `build_init` gives: nothing without constraint sources; the first
/// skill directory without markdown files as an error; otherwise the
/// constraint text and the fingerprint of all file contents, each framed.
pub open spec fn init_outcome(
    system: Seq<(Seq<char>, Seq<char>)>,
    skills: Seq<(Seq<char>, Seq<(Seq<char>, Seq<char>)>)>,
) -> Result<Option<(Seq<char>, Seq<char>)>, Seq<char>> {
    if system.len() == 0 && skills.len() == 0 {
        Ok(None)
    } else {
        match first_empty_dir(skills, 0) {
            Some(i) => Err(skills[i].0),
            None => Ok(
                Some(
                    (
                        init_text(system_parts(system) + skill_parts(skills)),
                        fingerprint_of(fingerprint_input(contents(system) + skill_contents(skills))),
                    ),
                ),
            ),
        }
    }
}

/// Each of the strings occurs in their join.
proof fn lemma_join_occurs(parts: Seq<Seq<char>>, sep: Seq<char>, m: int) -> (k: int)
    requires
        0 <= m < parts.len(),
    ensures
        occurs_at(join(parts, sep), parts[m], k),
    decreases parts.len(),
{
    if parts.len() == 1 {
        assert(join(parts, sep).subrange(0, parts[0].len() as int) =~= parts[0]);
        0
    } else {
        let head = join(parts.drop_last(), sep);
        if m == parts.len() - 1 {
            let k: int = (head.len() + sep.len()) as int;
            assert((head + sep + parts.last()).subrange(k, k + parts.last().len()) =~= parts.last());
            k
        } else {
            let k = lemma_join_occurs(parts.drop_last(), sep, m);
            lemma_occurs_at_extend(head, parts[m], k, sep);
            lemma_occurs_at_extend(head + sep, parts[m], k, parts.last());
            k
        }
    }
}

/// Each section occurs in the injected text.
proof fn lemma_init_text_holds(parts: Seq<Seq<char>>, m: int)
    requires
        0 <= m < parts.len(),
    ensures
        contains(init_text(parts), parts[m]),
{
    let k = lemma_join_occurs(parts, "\n\n"@, m);
    let j = join(parts, "\n\n"@);
    let tail = (if parts.len() > 0 { constraints_header() } else { Seq::empty() });
    lemma_occurs_at_extend(j, parts[m], k, "\n"@);
    lemma_occurs_at_extend(j + "\n"@, parts[m], k, tail);
    lemma_occurs_at_extend(j + "\n"@ + tail, parts[m], k, "\n\n[Acknowledge by replying OK.]"@);
    lemma_contains_iff_occurs(init_text(parts), parts[m]);
}

/// The section of file `f` of directory `d` is among the skill sections.
proof fn lemma_skill_parts_has(
    dirs: Seq<(Seq<char>, Seq<(Seq<char>, Seq<char>)>)>,
    d: int,
    f: int,
) -> (m: int)
    requires
        0 <= d < dirs.len(),
        0 <= f < dirs[d].1.len(),
    ensures
        0 <= m < skill_parts(dirs).len(),
        skill_parts(dirs)[m] == skill_part(dirs[d].1[f].0, dirs[d].1[f].1),
    decreases dirs.len(),
{
    let head = skill_parts(dirs.drop_last());
    if d == dirs.len() - 1 {
        head.len() + f
    } else {
        lemma_skill_parts_has(dirs.drop_last(), d, f)
    }
}

proof fn lemma_first_empty_dir(dirs: Seq<(Seq<char>, Seq<(Seq<char>, Seq<char>)>)>, i: int)
    requires
        0 <= i,
    ensures
        match first_empty_dir(dirs, i) {
            Some(e) => i <= e < dirs.len() && dirs[e].1.len() == 0
                && forall|j: int| i <= j < e ==> dirs[j].1.len() > 0,
            None => forall|j: int| i <= j < dirs.len() ==> dirs[j].1.len() > 0,
        },
    decreases dirs.len() - i,
{
    if i < dirs.len() && dirs[i].1.len() > 0 {
        lemma_first_empty_dir(dirs, i + 1);
    }
}

/// Constraint text is assembled exactly when a `--system` file or a
/// `--skills` directory is given: with neither the outcome is `Ok(None)`,
/// and with either it is never `Ok(None)`.
pub proof fn law_init_needs_sources(
    system: Seq<(Seq<char>, Seq<char>)>,
    skills: Seq<(Seq<char>, Seq<(Seq<char>, Seq<char>)>)>,
)
    ensures
        (init_outcome(system, skills) == Ok::<Option<(Seq<char>, Seq<char>)>, Seq<char>>(None))
            <==> (system.len() == 0 && skills.len() == 0),
{
}

/// A `--skills` directory without markdown files is refused: the first such
/// directory is named in the error, whatever `--system` files are given.
pub proof fn law_init_refuses_empty_dir(
    system: Seq<(Seq<char>, Seq<char>)>,
    skills: Seq<(Seq<char>, Seq<(Seq<char>, Seq<char>)>)>,
    i: int,
)
    requires
        0 <= i < skills.len(),
        skills[i].1.len() == 0,
        forall|j: int| 0 <= j < i ==> skills[j].1.len() > 0,
    ensures
        init_outcome(system, skills) == Err::<Option<(Seq<char>, Seq<char>)>, Seq<char>>(skills[i].0),
{
    lemma_first_empty_dir(skills, 0);
}

/// Where constraint sources are given and every skill directory holds
/// markdown files, there is constraint text, and it holds the section of
/// every `--system` file and of every skill file, with or without
/// `--system` files.
pub proof fn law_init_holds_every_section(
    system: Seq<(Seq<char>, Seq<char>)>,
    skills: Seq<(Seq<char>, Seq<(Seq<char>, Seq<char>)>)>,
)
    requires
        system.len() > 0 || skills.len() > 0,
        forall|j: int| 0 <= j < skills.len() ==> skills[j].1.len() > 0,
    ensures
        init_outcome(system, skills) is Ok,
        init_outcome(system, skills)->Ok_0 is Some,
        ({
            let text = init_outcome(system, skills)->Ok_0->Some_0.0;
            &&& forall|f: int| 0 <= f < system.len() ==> contains(text, constraint_part(system[f].0, system[f].1))
            &&& forall|d: int, f: int| 0 <= d < skills.len() && 0 <= f < skills[d].1.len()
                ==> contains(text, skill_part(skills[d].1[f].0, skills[d].1[f].1))
        }),
{
    lemma_first_empty_dir(skills, 0);
    let sys = system_parts(system);
    let sk = skill_parts(skills);
    let parts = sys + sk;
    let text = init_text(parts);
    assert(first_empty_dir(skills, 0) is None);
    assert(init_outcome(system, skills)->Ok_0->Some_0.0 == text);
    assert forall|f: int| 0 <= f < system.len() implies contains(text, constraint_part(system[f].0, system[f].1)) by {
        assert(parts[f] == constraint_part(system[f].0, system[f].1));
        lemma_init_text_holds(parts, f);
    }
    assert forall|d: int, f: int| 0 <= d < skills.len() && 0 <= f < skills[d].1.len()
        implies contains(text, skill_part(skills[d].1[f].0, skills[d].1[f].1)) by {
        let m = lemma_skill_parts_has(skills, d, f);
        assert(parts[sys.len() + m] == skill_part(skills[d].1[f].0, skills[d].1[f].1));
        lemma_init_text_holds(parts, sys.len() + m);
    }
}

/// Joins the strings with `sep` between them.
pub fn join_strings(parts: &Vec<String>, sep: &str) -> (r: String)
    ensures
        r@ == join(parts@.map_values(|p: String| p@), sep@),
{
    let ghost pv = parts@.map_values(|p: String| p@);
    let mut r = String::new();
    let mut i: usize = 0;
    while i < parts.len()
        invariant
            i <= parts@.len(),
            pv == parts@.map_values(|p: String| p@),
            r@ == join(pv.take(i as int), sep@),
        decreases parts.len() - i,
    {
        if i > 0 {
            r.append(sep);
        }
        r.append(parts[i].as_str());
        assert(pv.take(i + 1).drop_last() =~= pv.take(i as int));
        proof {
            if i == 0 {
                assert(pv.take(1) =~= seq![pv[0]]);
                assert(r@ =~= join(pv.take(1), sep@));
            }
        }
        i += 1;
    }
    assert(pv.take(parts@.len() as int) =~= pv);
    r
}

/// Assembles the constraint text from the `--system` files (path, content)
/// and the `--skills` directories, with a fingerprint of the file contents,
/// each framed by its length, so that the hashed input differs whenever a
/// content or a boundary between contents differs.
pub fn build_init(system: &Vec<(String, String)>, skills: &Vec<SkillDir>) -> (r: Result<Option<(String, String)>, InitError>)
    ensures
        match r {
            Ok(None) => init_outcome(pairs_view(system@), dirs_view(skills@)) == Ok::<Option<(Seq<char>, Seq<char>)>, Seq<char>>(None),
            Ok(Some((text, fp))) => init_outcome(pairs_view(system@), dirs_view(skills@)) == Ok::<Option<(Seq<char>, Seq<char>)>, Seq<char>>(Some((text@, fp@))),
            Err(InitError::NoSkillFiles(dir)) => init_outcome(pairs_view(system@), dirs_view(skills@)) == Err::<Option<(Seq<char>, Seq<char>)>, Seq<char>>(dir@),
        },
{
    if system.len() == 0 && skills.len() == 0 {
        return Ok(None);
    }
    let ghost sys = pairs_view(system@);
    let ghost dirs = dirs_view(skills@);
    let mut parts: Vec<String> = Vec::new();
    let mut hash_input = String::new();
    let mut i: usize = 0;
    while i < system.len()
        invariant
            i <= system@.len(),
            sys == pairs_view(system@),
            parts@.map_values(|p: String| p@) == system_parts(sys.take(i as int)),
            hash_input@ == fingerprint_input(contents(sys.take(i as int))),
        decreases system.len() - i,
    {
        let mut part = String::from_str("## Constraint (");
        part.append(system[i].0.as_str());
        part.append(")\n");
        part.append(system[i].1.as_str());
        assert(part@ =~= constraint_part(sys[i as int].0, sys[i as int].1));
        let ghost prev = parts@.map_values(|p: String| p@);
        parts.push(part);
        assert(parts@.map_values(|p: String| p@) =~= prev.push(constraint_part(sys[i as int].0, sys[i as int].1)));
        append_framed(&mut hash_input, system[i].1.as_str());
        proof {
            assert(sys.take(i + 1) =~= sys.take(i as int).push(sys[i as int]));
            assert(contents(sys.take(i + 1)) =~= contents(sys.take(i as int)).push(sys[i as int].1));
            lemma_fingerprint_input_push(contents(sys.take(i as int)), sys[i as int].1);
            assert(parts@.map_values(|p: String| p@) =~= system_parts(sys.take(i + 1)));
        }
        i += 1;
    }
    assert(sys.take(system@.len() as int) =~= sys);
    let ghost sys_parts = system_parts(sys);
    let ghost sys_hash = contents(sys);
    let mut d: usize = 0;
    while d < skills.len()
        invariant
            d <= skills@.len(),
            dirs == dirs_view(skills@),
            sys_parts == system_parts(sys),
            sys_hash == contents(sys),
            first_empty_dir(dirs, 0) == first_empty_dir(dirs, d as int),
            parts@.map_values(|p: String| p@) == sys_parts + skill_parts(dirs.take(d as int)),
            hash_input@ == fingerprint_input(sys_hash + skill_contents(dirs.take(d as int))),
        decreases skills.len() - d,
    {
        let dir = &skills[d];
        if dir.files.len() == 0 {
            return Err(InitError::NoSkillFiles(dir.dir.clone()));
        }
        let ghost files = pairs_view(dir.files@);
        let ghost before_parts = parts@.map_values(|p: String| p@);
        let ghost before_hash = sys_hash + skill_contents(dirs.take(d as int));
        let mut k: usize = 0;
        while k < dir.files.len()
            invariant
                k <= files.len(),
                files == pairs_view(dir.files@),
                parts@.map_values(|p: String| p@) == before_parts + files.take(k as int).map_values(
                    |f: (Seq<char>, Seq<char>)| skill_part(f.0, f.1),
                ),
                hash_input@ == fingerprint_input(before_hash + contents(files.take(k as int))),
            decreases dir.files.len() - k,
        {
            let mut part = String::from_str("## Skill: ");
            part.append(dir.files[k].0.as_str());
            part.append("\n");
            part.append(dir.files[k].1.as_str());
            assert(part@ =~= skill_part(files[k as int].0, files[k as int].1));
            let ghost prev = parts@.map_values(|p: String| p@);
            parts.push(part);
            assert(parts@.map_values(|p: String| p@) =~= prev.push(skill_part(files[k as int].0, files[k as int].1)));
            append_framed(&mut hash_input, dir.files[k].1.as_str());
            proof {
                assert(files.take(k + 1) =~= files.take(k as int).push(files[k as int]));
                assert(contents(files.take(k + 1)) =~= contents(files.take(k as int)).push(files[k as int].1));
                assert(before_hash + contents(files.take(k + 1)) =~= (before_hash + contents(files.take(k as int))).push(files[k as int].1));
                lemma_fingerprint_input_push(before_hash + contents(files.take(k as int)), files[k as int].1);
                assert(parts@.map_values(|p: String| p@) =~= before_parts + files.take(k + 1).map_values(
                    |f: (Seq<char>, Seq<char>)| skill_part(f.0, f.1),
                ));
            }
            k += 1;
        }
        proof {
            assert(files.take(files.len() as int) =~= files);
            assert(dirs.take(d + 1).drop_last() =~= dirs.take(d as int));
            assert(dirs[d as int].1 == files);
            assert(parts@.map_values(|p: String| p@) =~= sys_parts + skill_parts(dirs.take(d + 1)));
            assert(before_hash + contents(files) =~= sys_hash + skill_contents(dirs.take(d + 1)));
        }
        d += 1;
    }
    assert(dirs.take(skills@.len() as int) =~= dirs);
    let joined = join_strings(&parts, "\n\n");
    let mut text = joined;
    text.append("\n");
    if parts.len() > 0 {
        text.append("\n\n[SYSTEM CONSTRAINTS \u{2014} loaded once at the start of this conversation. Please acknowledge these rules and follow them for the rest of this conversation. Do not repeat them back, do not ask about them again; they apply to every follow-up message.]\n");
    }
    text.append("\n\n[Acknowledge by replying OK.]");
    let fp = fingerprint(hash_input.as_str());
    Ok(Some((text, fp)))
}


/// What is done with the constraint text before the message is sent.
pub enum Injection {
    /// No constraint sources were given.
    Nothing,
    /// The conversation `key` already holds these constraints.
    AlreadyLoaded { key: String },
    /// Inject into the conversation `key`, then record it; `forced` when it
    /// already held them and a re-injection was asked for.
    IntoConversation { key: String, forced: bool },
    /// No conversation is given: inject into the new conversation first.
    NewConversation,
}

pub enum InjectionView {
    Nothing,
    AlreadyLoaded { key: Seq<char> },
    IntoConversation { key: Seq<char>, forced: bool },
    NewConversation,
}

impl View for Injection {
    type V = InjectionView;

    open spec fn view(&self) -> InjectionView {
        match self {
            Injection::Nothing => InjectionView::Nothing,
            Injection::AlreadyLoaded { key } => InjectionView::AlreadyLoaded { key: key@ },
            Injection::IntoConversation { key, forced } => InjectionView::IntoConversation { key: key@, forced: *forced },
            Injection::NewConversation => InjectionView::NewConversation,
        }
    }
}

/// Constraints go into a conversation once: again only when their
/// fingerprint changed or a re-injection is asked for.
pub open spec fn injection_plan(
    fingerprint: Option<Seq<char>>,
    conversation: Option<Seq<char>>,
    reinit: bool,
    table: Map<Seq<char>, InitRecordView>,
) -> InjectionView {
    match fingerprint {
        None => InjectionView::Nothing,
        Some(fp) => match conversation {
            None => InjectionView::NewConversation,
            Some(url) => {
                let key = conversation_key(url);
                let already = initialized(table, key, fp);
                if already && !reinit {
                    InjectionView::AlreadyLoaded { key }
                } else {
                    InjectionView::IntoConversation { key, forced: reinit && already }
                }
            },
        },
    }
}

/// Decides what to do with the constraints whose fingerprint is
/// `fingerprint` (`None` when there are none) before asking in
/// `conversation`, given the initialization table.
pub fn plan_injection(fingerprint: Option<&str>, conversation: &Option<String>, reinit: bool, table: &State) -> (r: Injection)
    ensures
        r@ == injection_plan(
            match fingerprint { Some(f) => Some(f@), None => None },
            opt_view(*conversation),
            reinit,
            table@,
        ),
{
    match fingerprint {
        None => Injection::Nothing,
        Some(fp) => match conversation {
            None => Injection::NewConversation,
            Some(url) => {
                let key = key_from_conversation(url.as_str());
                let already = is_initialized(table, key.as_str(), fp);
                if already && !reinit {
                    Injection::AlreadyLoaded { key }
                } else {
                    Injection::IntoConversation { key, forced: reinit && already }
                }
            },
        },
    }
}

/// Constraints are injected once per conversation: once an injection into a
/// conversation has been recorded, asking there again with the same
/// constraints skips the injection.
pub proof fn law_inject_once(
    fingerprint: Seq<char>,
    url: Seq<char>,
    reinit: bool,
    table: Map<Seq<char>, InitRecordView>,
    now_secs: Option<u64>,
    key: Seq<char>,
    forced: bool,
)
    requires
        injection_plan(Some(fingerprint), Some(url), reinit, table) == (InjectionView::IntoConversation { key, forced }),
    ensures
        injection_plan(Some(fingerprint), Some(url), false, marked(table, key, fingerprint, now_secs))
            == (InjectionView::AlreadyLoaded { key }),
{
    law_query_after_mark(table, key, fingerprint, now_secs, key, fingerprint);
}

/// Constraints whose fingerprint differs from the recorded one are injected again.
pub proof fn law_changed_constraints_reinjected(
    fingerprint: Seq<char>,
    url: Seq<char>,
    reinit: bool,
    table: Map<Seq<char>, InitRecordView>,
)
    requires
        table.contains_key(conversation_key(url)),
        table[conversation_key(url)].fingerprint != fingerprint,
    ensures
        injection_plan(Some(fingerprint), Some(url), reinit, table)
            == (InjectionView::IntoConversation { key: conversation_key(url), forced: false }),
{
}

/// A conversation with no record is injected into, whatever the table
/// records for other conversations (unforced, whether or not a re-injection
/// is asked for).
pub proof fn law_unrecorded_conversation_injected(
    fingerprint: Seq<char>,
    url: Seq<char>,
    reinit: bool,
    table: Map<Seq<char>, InitRecordView>,
)
    requires
        !table.contains_key(conversation_key(url)),
    ensures
        injection_plan(Some(fingerprint), Some(url), reinit, table)
            == (InjectionView::IntoConversation { key: conversation_key(url), forced: false }),
{
}

/// The plan for a conversation reads only that conversation's record: two
/// tables that agree on it give the same plan.
pub proof fn law_plan_reads_only_its_conversation(
    fingerprint: Option<Seq<char>>,
    url: Seq<char>,
    reinit: bool,
    a: Map<Seq<char>, InitRecordView>,
    b: Map<Seq<char>, InitRecordView>,
)
    requires
        a.contains_key(conversation_key(url)) == b.contains_key(conversation_key(url)),
        a.contains_key(conversation_key(url)) ==> a[conversation_key(url)] == b[conversation_key(url)],
    ensures
        injection_plan(fingerprint, Some(url), reinit, a) == injection_plan(fingerprint, Some(url), reinit, b),
{
}

/// A re-injection asked for always injects into the named conversation,
/// whatever the table records.
pub proof fn law_reinit_always_injects(
    fingerprint: Seq<char>,
    url: Seq<char>,
    table: Map<Seq<char>, InitRecordView>,
)
    ensures
        injection_plan(Some(fingerprint), Some(url), true, table) is IntoConversation,
        injection_plan(Some(fingerprint), Some(url), true, table)->IntoConversation_key == conversation_key(url),
{
}

/// The request `id` that asks `message` in `conversation` on `site`,
/// waiting up to `timeout_secs` (the caller draws a fresh random `id`).
pub fn new_ask(id: &str, message: &str, conversation: &Option<String>, timeout_secs: u64, site: &str) -> (r: Ask)
    requires
        timeout_secs * 1000 <= u64::MAX,
    ensures
        r@.ty == "ask"@,
        r@.id == id@,
        r@.payload == (AskPayloadView {
            message: message@,
            conversation: opt_view(*conversation),
            timeout_ms: Some((timeout_secs * 1000) as u64),
            site: Some(site@),
        }),
{
    let conversation = match conversation {
        Some(c) => Some(c.clone()),
        None => None,
    };
    Ask {
        ty: String::from_str("ask"),
        id: String::from_str(id),
        payload: AskPayload {
            message: String::from_str(message),
            conversation,
            timeout_ms: Some(timeout_secs * 1000),
            site: Some(String::from_str(site)),
        },
    }
}

/// The fields of a message from the daemon that the CLI reads: `type`, `id`,
/// `ok`, `delta`, `data.text`, `data.url`, `data.title`, `error.code` and
/// `error.message`, each where it is present with the expected JSON type.
pub struct ReplyFields {
    pub ty: Option<String>,
    pub id: Option<String>,
    pub ok: Option<bool>,
    pub delta: Option<String>,
    pub text: Option<String>,
    pub url: Option<String>,
    pub title: Option<String>,
    pub code: Option<String>,
    pub message: Option<String>,
}

/// What a message from the daemon means for the request being waited on.
pub enum ReplyStep {
    /// Not about this request.
    Ignore,
    /// A piece of the reply while it is being generated.
    Delta(String),
    /// The reply.
    Done(AskResultData),
    /// The request failed; the text says `[code] message`.
    Failed(String),
}

pub enum ReplyStepView {
    Ignore,
    Delta(Seq<char>),
    Done(AskResultDataView),
    Failed(Seq<char>),
}

impl View for ReplyStep {
    type V = ReplyStepView;

    open spec fn view(&self) -> ReplyStepView {
        match self {
            ReplyStep::Ignore => ReplyStepView::Ignore,
            ReplyStep::Delta(d) => ReplyStepView::Delta(d@),
            ReplyStep::Done(d) => ReplyStepView::Done(d@),
            ReplyStep::Failed(m) => ReplyStepView::Failed(m@),
        }
    }
}

/// The string, or `default` where it is absent.
pub open spec fn or_default(s: Option<String>, default: Seq<char>) -> Seq<char> {
    match s {
        Some(s) => s@,
        None => default,
    }
}

/// How a message with the given fields answers request `id`.
pub open spec fn reply_step(f: ReplyFields, id: Seq<char>) -> ReplyStepView {
    let ours = opt_view(f.id) == Some(id);
    if opt_view(f.ty) == Some("ask_chunk"@) && ours {
        match f.delta {
            Some(d) => ReplyStepView::Delta(d@),
            None => ReplyStepView::Ignore,
        }
    } else if opt_view(f.ty) == Some("ask_result"@) && ours {
        if f.ok == Some(true) {
            ReplyStepView::Done(
                AskResultDataView {
                    text: or_default(f.text, Seq::empty()),
                    url: or_default(f.url, Seq::empty()),
                    title: or_default(f.title, Seq::empty()),
                },
            )
        } else {
            ReplyStepView::Failed(
                "["@ + or_default(f.code, "?"@) + "] "@ + or_default(f.message, "?"@),
            )
        }
    } else {
        ReplyStepView::Ignore
    }
}

/// Replies are matched to the request by id: a message about another
/// request (or with no id) is ignored; a result for this request that is
/// `ok` gives the reply's text and URL, and one that is not `ok` is a failure.
pub proof fn law_reply_matches_request(f: ReplyFields, id: Seq<char>)
    ensures
        opt_view(f.id) != Some(id) ==> reply_step(f, id) == ReplyStepView::Ignore,
        (opt_view(f.id) == Some(id) && opt_view(f.ty) == Some("ask_result"@) && f.ok == Some(true))
            ==> (reply_step(f, id) matches ReplyStepView::Done(d) && d.text == or_default(f.text, Seq::empty())
            && d.url == or_default(f.url, Seq::empty())),
        (opt_view(f.id) == Some(id) && opt_view(f.ty) == Some("ask_result"@) && f.ok != Some(true))
            ==> reply_step(f, id) is Failed,
{
    reveal_strlit("ask_chunk");
    reveal_strlit("ask_result");
    assert("ask_chunk"@[4] != "ask_result"@[4]);
}

fn opt_is(s: &Option<String>, lit: &str) -> (r: bool)
    ensures
        r == (opt_view(*s) == Some(lit@)),
{
    match s {
        Some(s) => *s == String::from_str(lit),
        None => false,
    }
}

fn take_or(s: Option<String>, default: &str) -> (r: String)
    ensures
        r@ == or_default(s, default@),
{
    match s {
        Some(s) => s,
        None => String::from_str(default),
    }
}

/// Reads a message from the daemon while waiting for request `id`.
pub fn read_reply(fields: ReplyFields, id: &str) -> (r: ReplyStep)
    ensures
        r@ == reply_step(fields, id@),
{
    let ghost f = fields;
    let ours = match &fields.id {
        Some(i) => *i == String::from_str(id),
        None => false,
    };
    proof {
        reveal_strlit("");
        assert(""@ =~= Seq::<char>::empty());
    }
    if opt_is(&fields.ty, "ask_chunk") && ours {
        match fields.delta {
            Some(d) => ReplyStep::Delta(d),
            None => ReplyStep::Ignore,
        }
    } else if opt_is(&fields.ty, "ask_result") && ours {
        let ok = match fields.ok {
            Some(b) => b,
            None => false,
        };
        if ok {
            ReplyStep::Done(
                AskResultData {
                    text: take_or(fields.text, ""),
                    url: take_or(fields.url, ""),
                    title: take_or(fields.title, ""),
                },
            )
        } else {
            let mut m = String::from_str("[");
            let code = take_or(fields.code, "?");
            m.append(code.as_str());
            m.append("] ");
            let message = take_or(fields.message, "?");
            m.append(message.as_str());
            assert(m@ =~= "["@ + or_default(f.code, "?"@) + "] "@ + or_default(f.message, "?"@));
            ReplyStep::Failed(m)
        }
    } else {
        ReplyStep::Ignore
    }
}

/// The text printed for a reply in plain mode: the reply, ending with a newline.
pub fn terminal_output(text: &str) -> (r: String)
    ensures
        r@ == if text@.len() > 0 && text@.last() == '\n' { text@ } else { text@.push('\n') },
{
    let cs = chars_of(text);
    let mut r = String::from_str(text);
    if cs.len() == 0 || cs[cs.len() - 1] != '\n' {
        push_char(&mut r, '\n');
    }
    r
}

} // verus!
