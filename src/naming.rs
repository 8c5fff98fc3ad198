//! Naming conventions for files and directories: case checks, case
//! conversions, and the path classes that choose a convention.

use vstd::prelude::*;
use crate::text::{chars_of, join, join_all, push_char, runs, split_runs, text_eq, views};
use crate::ingest::{components, path_components};

verus! {

/// Whether `c` has the Unicode Lowercase property.
pub uninterp spec fn is_lower(c: char) -> bool;

/// Whether `c` has the Unicode Uppercase property.
pub uninterp spec fn is_upper(c: char) -> bool;

/// Whether `c` is in a Unicode numeric general category (Nd, Nl, No).
pub uninterp spec fn is_digit_like(c: char) -> bool;

/// Whether `c` has the Unicode Alphabetic property.
pub uninterp spec fn is_letter(c: char) -> bool;

/// First character of the Unicode lowercase mapping of `c`.
pub uninterp spec fn lower_head(c: char) -> char;

/// First character of the Unicode uppercase mapping of `c`.
pub uninterp spec fn upper_head(c: char) -> char;

/// Relies on `char::is_lowercase`.
#[verifier::external_body]
fn char_is_lower(c: char) -> (r: bool)
    ensures
        r == is_lower(c),
{
    c.is_lowercase()
}

/// Relies on `char::is_uppercase`.
#[verifier::external_body]
fn char_is_upper(c: char) -> (r: bool)
    ensures
        r == is_upper(c),
{
    c.is_uppercase()
}

/// Relies on `char::is_numeric`.
#[verifier::external_body]
fn char_is_numeric(c: char) -> (r: bool)
    ensures
        r == is_digit_like(c),
{
    c.is_numeric()
}

/// Relies on `char::is_alphabetic`.
#[verifier::external_body]
fn char_is_alphabetic(c: char) -> (r: bool)
    ensures
        r == is_letter(c),
{
    c.is_alphabetic()
}

/// Relies on `char::to_lowercase`, whose mapping is never empty: its first
/// character.
#[verifier::external_body]
fn char_lower_head(c: char) -> (r: char)
    ensures
        r == lower_head(c),
{
    c.to_lowercase().next().unwrap_or(c)
}

/// Relies on `char::to_uppercase`, whose mapping is never empty: its first
/// character.
#[verifier::external_body]
fn char_upper_head(c: char) -> (r: char)
    ensures
        r == upper_head(c),
{
    c.to_uppercase().next().unwrap_or(c)
}

/// Letters and digits, as `char::is_alphanumeric` defines them.
pub open spec fn is_alnum(c: char) -> bool {
    is_letter(c) || is_digit_like(c)
}

/// Kinds of naming problem.
#[derive(Debug, Clone, Copy, PartialEq, Eq, Structural)]
pub enum IssueType {
    DirectoryNaming,
    RustFileNaming,
    MarkdownFileNaming,
    JsonFileNaming,
}

/// Settings of a naming check.
#[derive(Debug, Clone)]
pub struct ValidationConfig {
    /// Directory the check walks.
    pub target_path: String,
    /// Rename what does not conform.
    pub fix_issues: bool,
    /// Report every file looked at.
    pub verbose: bool,
}

impl Default for ValidationConfig {
    fn default() -> (r: ValidationConfig)
        ensures
            r.target_path@ == "."@,
            !r.fix_issues,
            !r.verbose,
    {
        ValidationConfig { target_path: ".".to_owned(), fix_issues: false, verbose: false }
    }
}

/// Nonempty, and every character a lowercase letter, a digit or `sep`.
pub open spec fn lower_with(s: Seq<char>, sep: char) -> bool {
    s.len() > 0 && forall|i: int|
        0 <= i < s.len() ==> is_lower(#[trigger] s[i]) || is_digit_like(s[i]) || s[i] == sep
}

fn check_lower_with(s: &str, sep: char) -> (r: bool)
    ensures
        r == lower_with(s@, sep),
{
    let cs = chars_of(s);
    if cs.len() == 0 {
        return false;
    }
    let mut i: usize = 0;
    while i < cs.len()
        invariant
            i <= cs.len(),
            cs@ == s@,
            forall|k: int|
                0 <= k < i ==> is_lower(#[trigger] cs@[k]) || is_digit_like(cs@[k]) || cs@[k] == sep,
        decreases cs.len() - i,
    {
        let c = cs[i];
        if !(char_is_lower(c) || char_is_numeric(c) || c == sep) {
            return false;
        }
        i = i + 1;
    }
    true
}

/// Whether `s` is kebab-case: lowercase letters, digits and `-`.
pub fn is_valid_kebab_case(s: &str) -> (r: bool)
    ensures
        r == lower_with(s@, '-'),
{
    check_lower_with(s, '-')
}

/// Whether `s` is snake_case: lowercase letters, digits and `_`.
pub fn is_valid_snake_case(s: &str) -> (r: bool)
    ensures
        r == lower_with(s@, '_'),
{
    check_lower_with(s, '_')
}

/// Nonempty, uppercase first, letters and digits after.
pub open spec fn title_shaped(s: Seq<char>) -> bool {
    s.len() > 0 && is_upper(s[0]) && forall|i: int| 1 <= i < s.len() ==> is_alnum(#[trigger] s[i])
}

/// Whether `s` is TitleCase: an uppercase letter, then letters and digits.
pub fn is_valid_title_case(s: &str) -> (r: bool)
    ensures
        r == title_shaped(s@),
{
    let cs = chars_of(s);
    if cs.len() == 0 || !char_is_upper(cs[0]) {
        return false;
    }
    let mut i: usize = 1;
    while i < cs.len()
        invariant
            1 <= i <= cs.len(),
            cs@ == s@,
            forall|k: int| 1 <= k < i ==> is_alnum(#[trigger] cs@[k]),
        decreases cs.len() - i,
    {
        let c = cs[i];
        if !(char_is_alphabetic(c) || char_is_numeric(c)) {
            return false;
        }
        i = i + 1;
    }
    true
}

/// Whether a word boundary falls before `s[i]`: an uppercase letter after a
/// lowercase letter or a digit.
pub open spec fn boundary_at(s: Seq<char>, i: int) -> bool {
    i > 0 && is_upper(s[i]) && (is_lower(s[i - 1]) || is_digit_like(s[i - 1]))
}

/// What `s[i]` becomes: `sep` first at a word boundary, then the lowercase
/// of a letter or digit, or `sep` for any other character.
pub open spec fn marked_at(s: Seq<char>, i: int, sep: char) -> Seq<char> {
    let body = if is_alnum(s[i]) {
        seq![lower_head(s[i])]
    } else {
        seq![sep]
    };
    if boundary_at(s, i) {
        seq![sep] + body
    } else {
        body
    }
}

/// `s` with each character replaced as `marked_at` says.
pub open spec fn marked(s: Seq<char>, sep: char) -> Seq<char>
    decreases s.len(),
{
    if s.len() == 0 {
        Seq::empty()
    } else {
        marked(s.drop_last(), sep) + marked_at(s, s.len() - 1, sep)
    }
}

/// `s` converted to lowercase words joined by `sep`.
pub open spec fn converted(s: Seq<char>, sep: char) -> Seq<char> {
    join(runs(marked(s, sep), sep), seq![sep])
}

fn convert_case(s: &str, sep: char) -> (r: String)
    ensures
        r@ == converted(s@, sep),
{
    let cs = chars_of(s);
    let mut m = String::new();
    let mut i: usize = 0;
    assert(cs@.take(0) =~= Seq::<char>::empty());
    while i < cs.len()
        invariant
            i <= cs.len(),
            cs@ == s@,
            m@ == marked(cs@.take(i as int), sep),
        decreases cs.len() - i,
    {
        let c = cs[i];
        let ghost t = cs@.take(i + 1);
        assert(t.drop_last() =~= cs@.take(i as int));
        assert(t[i as int] == c);
        if i > 0 {
            assert(t[i - 1] == cs@[i - 1]);
        }
        let ghost before = m@;
        if i > 0 && char_is_upper(c) && (char_is_lower(cs[i - 1]) || char_is_numeric(cs[i - 1])) {
            push_char(&mut m, sep);
        }
        if char_is_alphabetic(c) || char_is_numeric(c) {
            push_char(&mut m, char_lower_head(c));
        } else {
            push_char(&mut m, sep);
        }
        assert(m@ =~= before + marked_at(t, i as int, sep));
        i = i + 1;
    }
    assert(cs@.take(i as int) =~= s@);
    let parts = split_runs(m.as_str(), sep);
    let mut sep_text = String::new();
    push_char(&mut sep_text, sep);
    assert(sep_text@ =~= seq![sep]);
    join_all(&parts, sep_text.as_str())
}

/// `s` as kebab-case: lowercase words joined by `-`, a word ending at each
/// character that is not a letter or digit and before each uppercase letter
/// that follows a lowercase letter or digit.
pub fn to_kebab_case(s: &str) -> (r: String)
    ensures
        r@ == converted(s@, '-'),
{
    convert_case(s, '-')
}

/// `s` as snake_case, word by word as for kebab-case, joined by `_`.
pub fn to_snake_case(s: &str) -> (r: String)
    ensures
        r@ == converted(s@, '_'),
{
    convert_case(s, '_')
}

/// TitleCase of `s` when a new word starts exactly if `cap`: each letter
/// that starts a word is uppercased and the other letters lowercased, digits
/// are kept, and any other character is dropped and starts a new word.
pub open spec fn titled(s: Seq<char>, cap: bool) -> Seq<char>
    decreases s.len(),
{
    if s.len() == 0 {
        Seq::empty()
    } else {
        let c = s[0];
        let rest = s.drop_first();
        if is_letter(c) {
            seq![if cap { upper_head(c) } else { lower_head(c) }] + titled(rest, false)
        } else if is_digit_like(c) {
            seq![c] + titled(rest, cap)
        } else {
            titled(rest, true)
        }
    }
}

/// `s` as TitleCase.
pub fn to_title_case(s: &str) -> (r: String)
    ensures
        r@ == titled(s@, true),
{
    let cs = chars_of(s);
    let mut out = String::new();
    let mut cap = true;
    let mut i: usize = 0;
    assert(cs@.skip(0) =~= cs@);
    while i < cs.len()
        invariant
            i <= cs.len(),
            cs@ == s@,
            out@ + titled(cs@.skip(i as int), cap) == titled(s@, true),
        decreases cs.len() - i,
    {
        let c = cs[i];
        let ghost rest = cs@.skip(i as int);
        assert(rest[0] == c);
        assert(rest.drop_first() =~= cs@.skip(i + 1));
        let ghost before = out@;
        let ghost cap0 = cap;
        if char_is_alphabetic(c) {
            if cap {
                push_char(&mut out, char_upper_head(c));
            } else {
                push_char(&mut out, char_lower_head(c));
            }
            cap = false;
        } else if char_is_numeric(c) {
            push_char(&mut out, c);
        } else {
            cap = true;
        }
        assert(out@ + titled(cs@.skip(i + 1), cap) =~= before + titled(rest, cap0));
        i = i + 1;
    }
    assert(cs@.skip(i as int) =~= Seq::<char>::empty());
    assert(out@ + Seq::<char>::empty() =~= out@);
    out
}


/// The views of a list of names.
pub open spec fn name_views(v: Seq<&'static str>) -> Seq<Seq<char>> {
    v.map_values(|s: &'static str| s@)
}

/// Whether `name` is one of `names`.
fn is_one_of(name: &str, names: &Vec<&'static str>) -> (r: bool)
    ensures
        r == name_views(names@).contains(name@),
{
    let mut i: usize = 0;
    while i < names.len()
        invariant
            i <= names.len(),
            forall|k: int| 0 <= k < i ==> names@[k]@ != name@,
        decreases names.len() - i,
    {
        if text_eq(name, names[i]) {
            assert(name_views(names@)[i as int] == name@);
            return true;
        }
        i = i + 1;
    }
    assert forall|k: int| 0 <= k < name_views(names@).len() implies name_views(names@)[k] != name@ by {
        assert(name_views(names@)[k] == names@[k]@);
    }
    false
}

/// Directories whose names are kept as they are.
pub open spec fn special_directories() -> Seq<Seq<char>> {
    seq!["src"@, "tests"@, "docs"@, "scripts"@, "config"@, "data"@, "logs"@]
}

/// Whether `name` is a conventional top-level directory.
pub fn is_special_directory(name: &str) -> (r: bool)
    ensures
        r == special_directories().contains(name@),
{
    let names = vec!["src", "tests", "docs", "scripts", "config", "data", "logs"];
    assert(name_views(names@) =~= special_directories());
    is_one_of(name, &names)
}

/// Documents whose names are upper case by convention.
pub open spec fn standard_docs() -> Seq<Seq<char>> {
    seq!["README"@, "CONTRIBUTING"@, "LICENSE"@, "CHANGELOG"@]
}

/// Whether `name` is a standard document name.
pub fn is_standard_doc(name: &str) -> (r: bool)
    ensures
        r == standard_docs().contains(name@),
{
    let names = vec!["README", "CONTRIBUTING", "LICENSE", "CHANGELOG"];
    assert(name_views(names@) =~= standard_docs());
    is_one_of(name, &names)
}

/// Whether some component of `path` is one of `names`.
pub open spec fn under_any(path: Seq<char>, names: Seq<Seq<char>>) -> bool {
    exists|i: int| 0 <= i < components(path).len() && names.contains(#[trigger] components(path)[i])
}

fn has_component_in(path: &str, names: &Vec<&'static str>) -> (r: bool)
    ensures
        r == under_any(path@, name_views(names@)),
{
    let parts = path_components(path);
    let mut i: usize = 0;
    while i < parts.len()
        invariant
            i <= parts.len(),
            views(parts@) == components(path@),
            forall|k: int| 0 <= k < i ==> !name_views(names@).contains(#[trigger] components(path@)[k]),
        decreases parts.len() - i,
    {
        assert(views(parts@)[i as int] == parts@[i as int]@);
        if is_one_of(parts[i].as_str(), names) {
            return true;
        }
        i = i + 1;
    }
    false
}

/// Whether `path` lies in (or is) an `ai-entities` directory.
pub fn is_entity_file(path: &str) -> (r: bool)
    ensures
        r == under_any(path@, seq!["ai-entities"@]),
{
    let names = vec!["ai-entities"];
    assert(name_views(names@) =~= seq!["ai-entities"@]);
    has_component_in(path, &names)
}

/// Whether `path` lies in an `ai-entities` or `personality-archetypes`
/// directory.
pub fn is_entity_or_archetype_file(path: &str) -> (r: bool)
    ensures
        r == under_any(path@, seq!["ai-entities"@, "personality-archetypes"@]),
{
    let names = vec!["ai-entities", "personality-archetypes"];
    assert(name_views(names@) =~= seq!["ai-entities"@, "personality-archetypes"@]);
    has_component_in(path, &names)
}

/// Whether `path` lies in a `config` directory.
pub fn is_config_file(path: &str) -> (r: bool)
    ensures
        r == under_any(path@, seq!["config"@]),
{
    let names = vec!["config"];
    assert(name_views(names@) =~= seq!["config"@]);
    has_component_in(path, &names)
}

} // verus!
