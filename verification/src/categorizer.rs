//! Heuristic classification of a string by its shape.
//!
//! A string may belong to several categories at once.  The rules are checked
//! in a fixed order and need no pattern catalog; a string that no rule
//! recognises is `generic`.

use vstd::prelude::*;
use crate::text::{
    alphanumeric, ascii_lowered, chars_of, contains, contains_text, digit, ends_with,
    ends_with_text, hex_digit, is_ascii_alphanumeric, is_ascii_digit, is_ascii_letter,
    is_ascii_lower, is_ascii_upper, is_hex_digit, lower, starts_with, starts_with_text,
    to_ascii_lower, upper,
};

verus! {

/// Model of a category.
pub struct CategoryModel {
    pub name: Seq<char>,
    pub severity: Option<u8>,
}

/// A classification result: the name of the category and, where the source
/// of the classification ranks it, a severity.
#[derive(Debug)]
pub struct Category {
    pub name: String,
    pub severity: Option<u8>,
}

impl View for Category {
    type V = CategoryModel;

    open spec fn view(&self) -> CategoryModel {
        CategoryModel { name: self.name@, severity: self.severity }
    }
}

impl Clone for Category {
    fn clone(&self) -> (r: Self)
        ensures
            r@ == self@,
    {
        Category { name: self.name.clone(), severity: self.severity }
    }
}

/// The names of a sequence of categories.
pub open spec fn category_names(s: Seq<Category>) -> Seq<Seq<char>> {
    Seq::new(s.len(), |i: int| s[i].name@)
}

/// A character that may stand in a group of an address: a decimal digit, or
/// a hexadecimal digit where `hex` is set.
pub open spec fn group_char(c: char, hex: bool) -> bool {
    if hex {
        is_hex_digit(c)
    } else {
        is_ascii_digit(c)
    }
}

/// End of the run of group characters of `s` that begins at `start`.
pub open spec fn run_end(s: Seq<char>, start: int, hex: bool) -> int
    decreases s.len() - start,
{
    if 0 <= start < s.len() && group_char(s[start], hex) {
        run_end(s, start + 1, hex)
    } else {
        start
    }
}

/// From `start` on, `s` consists of exactly `groups` runs of 1 to `max_len`
/// group characters, separated by single `sep` characters.
pub open spec fn grouped_from(
    s: Seq<char>,
    start: int,
    sep: char,
    hex: bool,
    max_len: int,
    groups: nat,
) -> bool
    decreases groups,
{
    if groups == 0 {
        false
    } else {
        let end = run_end(s, start, hex);
        &&& 1 <= end - start <= max_len
        &&& if groups == 1 {
            end == s.len()
        } else {
            &&& end < s.len()
            &&& s[end] == sep
            &&& grouped_from(s, end + 1, sep, hex, max_len, (groups - 1) as nat)
        }
    }
}

/// Dotted quad: four groups of one to three decimal digits.
pub open spec fn is_ipv4(s: Seq<char>) -> bool {
    grouped_from(s, 0, '.', false, 3, 4)
}

/// Colon-hex form: eight groups of one to four hexadecimal digits.
pub open spec fn is_ipv6(s: Seq<char>) -> bool {
    grouped_from(s, 0, ':', true, 4, 8)
}

/// A character that may stand in a domain name.
pub open spec fn is_domain_char(c: char) -> bool {
    is_ascii_alphanumeric(c) || c == '.' || c == '-'
}

/// A domain-like text: domain characters only, with a dot that is neither
/// the first nor the last character.
pub open spec fn is_domain_like(d: Seq<char>) -> bool {
    &&& forall|i: int| 0 <= i < d.len() ==> is_domain_char(d[i])
    &&& exists|j: int| 0 < j < d.len() - 1 && d[j] == '.'
}

/// `s` has an `@` that is not its first character and is followed by a
/// domain-like text up to the end.
pub open spec fn is_email(s: Seq<char>) -> bool {
    exists|i: int| 0 < i < s.len() && s[i] == '@' && is_domain_like(s.skip(i + 1))
}

/// `s` contains a scheme delimiter.
pub open spec fn is_url(s: Seq<char>) -> bool {
    contains_text(s, "://"@)
}

/// `s` has the shape of an IPv4 or IPv6 address.
pub open spec fn is_ip_address(s: Seq<char>) -> bool {
    is_ipv4(s) || is_ipv6(s)
}

/// `s` begins with a drive letter, a colon and a separator.
pub open spec fn has_drive_prefix(s: Seq<char>) -> bool {
    s.len() >= 3 && is_ascii_letter(s[0]) && s[1] == ':' && (s[2] == '\\' || s[2] == '/')
}

/// `s` begins like an absolute, home-relative, relative, UNC or drive path.
pub open spec fn is_path(s: Seq<char>) -> bool {
    ||| starts_with_text(s, "/"@)
    ||| starts_with_text(s, "~/"@)
    ||| starts_with_text(s, "./"@)
    ||| starts_with_text(s, "../"@)
    ||| starts_with_text(s, "\\\\"@)
    ||| has_drive_prefix(s)
}

/// `s` names a registry hive, in full or abbreviated before a backslash.
pub open spec fn is_registry(s: Seq<char>) -> bool {
    ||| contains_text(s, "HKEY_"@)
    ||| contains_text(s, "HKLM\\"@)
    ||| contains_text(s, "HKCU\\"@)
    ||| contains_text(s, "HKCR\\"@)
    ||| contains_text(s, "HKU\\"@)
    ||| contains_text(s, "HKCC\\"@)
}

/// `s` ends, in any letter case, like the name of a library or module, or
/// holds the marker of a versioned shared object.
pub open spec fn is_library(s: Seq<char>) -> bool {
    let l = ascii_lowered(s);
    ||| ends_with_text(l, ".dll"@)
    ||| ends_with_text(l, ".so"@)
    ||| ends_with_text(l, ".dylib"@)
    ||| ends_with_text(l, ".sys"@)
    ||| contains_text(l, ".so."@)
}

/// `s` is an identifier in Pascal case: ASCII letters and digits only, an
/// upper-case letter first, another upper-case letter later, and at least
/// one lower-case letter.
pub open spec fn is_api_call(s: Seq<char>) -> bool {
    &&& s.len() > 0
    &&& forall|i: int| 0 <= i < s.len() ==> is_ascii_alphanumeric(s[i])
    &&& is_ascii_upper(s[0])
    &&& exists|i: int| 0 < i < s.len() && is_ascii_upper(s[i])
    &&& exists|i: int| 0 <= i < s.len() && is_ascii_lower(s[i])
}

/// `s` begins in a directory of system programs, or holds, in any letter
/// case, the invocation of a shell or script host.
pub open spec fn is_command(s: Seq<char>) -> bool {
    let l = ascii_lowered(s);
    ||| starts_with_text(s, "/bin/"@)
    ||| starts_with_text(s, "/sbin/"@)
    ||| starts_with_text(s, "/usr/bin/"@)
    ||| starts_with_text(s, "/usr/sbin/"@)
    ||| contains_text(l, "cmd.exe"@)
    ||| contains_text(l, "cmd /c"@)
    ||| contains_text(l, "powershell"@)
    ||| contains_text(l, "wscript"@)
    ||| contains_text(l, "cscript"@)
    ||| contains_text(l, "/bin/sh"@)
    ||| contains_text(l, "/bin/bash"@)
    ||| contains_text(l, "bash -c"@)
    ||| contains_text(l, "sh -c"@)
}

/// `label` if `applies`, nothing otherwise.
pub open spec fn label_if(applies: bool, label: Seq<char>) -> Seq<Seq<char>> {
    if applies {
        seq![label]
    } else {
        Seq::empty()
    }
}

/// The labels of the rules that recognise `s`, in the order of the rules.
pub open spec fn specific_labels(s: Seq<char>) -> Seq<Seq<char>> {
    label_if(is_url(s), "url"@) + label_if(is_ip_address(s), "ip_address"@) + label_if(
        is_email(s),
        "email"@,
    ) + label_if(is_path(s), "path"@) + label_if(is_registry(s), "registry"@) + label_if(
        is_library(s),
        "library"@,
    ) + label_if(is_api_call(s), "api_call"@) + label_if(is_command(s), "command"@)
}

/// The labels of `s`: those of the rules that recognise it, or `generic`
/// when none does.
pub open spec fn labels_of(s: Seq<char>) -> Seq<Seq<char>> {
    if specific_labels(s).len() == 0 {
        seq!["generic"@]
    } else {
        specific_labels(s)
    }
}

/// Every string has at least one label, and `generic` is given exactly to
/// the strings that no rule recognises.
pub proof fn lemma_labels_nonempty(s: Seq<char>)
    ensures
        labels_of(s).len() > 0,
        specific_labels(s).len() == 0 <==> !(is_url(s) || is_ip_address(s) || is_email(s)
            || is_path(s) || is_registry(s) || is_library(s) || is_api_call(s) || is_command(s)),
        specific_labels(s).len() == 0 ==> labels_of(s) == seq!["generic"@],
{
}

/// Something that can classify a string.  Nothing is asked of a
/// categorizer: what it returns is taken as it comes.
pub trait Categorizer {
    /// Classifies `value`.
    fn categorize(&self, value: &str) -> (r: Vec<Category>);
}

/// The categorizer that ships with the library.
pub struct DefaultCategorizer {}

/// Whether `hay` contains the text of `needle`.
fn contains_literal(hay: &Vec<char>, needle: &str) -> (r: bool)
    ensures
        r == contains_text(hay@, needle@),
{
    let n = chars_of(needle);
    contains(hay, &n)
}

/// Whether `hay` begins with the text of `prefix`.
fn starts_with_literal(hay: &Vec<char>, prefix: &str) -> (r: bool)
    ensures
        r == starts_with_text(hay@, prefix@),
{
    let p = chars_of(prefix);
    starts_with(hay, &p)
}

/// Whether `hay` ends with the text of `suffix`.
fn ends_with_literal(hay: &Vec<char>, suffix: &str) -> (r: bool)
    ensures
        r == ends_with_text(hay@, suffix@),
{
    let p = chars_of(suffix);
    ends_with(hay, &p)
}

fn group_member(c: char, hex: bool) -> (r: bool)
    ensures
        r == group_char(c, hex),
{
    if hex {
        hex_digit(c)
    } else {
        digit(c)
    }
}

/// End of the run of group characters that begins at `start`.
fn scan_run(s: &Vec<char>, start: usize, hex: bool) -> (end: usize)
    requires
        start <= s.len(),
    ensures
        end == run_end(s@, start as int, hex),
        start <= end <= s.len(),
{
    let mut i: usize = start;
    while i < s.len() && group_member(s[i], hex)
        invariant
            start <= i <= s.len(),
            run_end(s@, i as int, hex) == run_end(s@, start as int, hex),
        decreases s.len() - i,
    {
        i += 1;
    }
    i
}

/// Whether `s` consists of `groups` runs of 1 to `max_len` group characters
/// separated by `sep`.
pub fn has_groups(s: &Vec<char>, sep: char, hex: bool, max_len: usize, groups: usize) -> (r: bool)
    ensures
        r == grouped_from(s@, 0, sep, hex, max_len as int, groups as nat),
{
    if groups == 0 {
        return false;
    }
    let mut start: usize = 0;
    let mut left: usize = groups;
    loop
        invariant
            1 <= left <= groups,
            start <= s.len(),
            grouped_from(s@, start as int, sep, hex, max_len as int, left as nat) == grouped_from(
                s@,
                0,
                sep,
                hex,
                max_len as int,
                groups as nat,
            ),
        decreases left,
    {
        let end = scan_run(s, start, hex);
        if end == start || end - start > max_len {
            return false;
        }
        if left == 1 {
            return end == s.len();
        }
        if end >= s.len() || s[end] != sep {
            return false;
        }
        start = end + 1;
        left -= 1;
    }
}

fn domain_member(c: char) -> (r: bool)
    ensures
        r == is_domain_char(c),
{
    alphanumeric(c) || c == '.' || c == '-'
}

/// Whether the part of `s` from `from` on is domain-like.
fn domain_like_from(s: &Vec<char>, from: usize) -> (r: bool)
    requires
        from <= s.len(),
    ensures
        r == is_domain_like(s@.skip(from as int)),
{
    let ghost d = s@.skip(from as int);
    let mut inner_dot = false;
    let mut i: usize = from;
    while i < s.len()
        invariant
            from <= i <= s.len(),
            d == s@.skip(from as int),
            forall|k: int| 0 <= k < i - from ==> is_domain_char(d[k]),
            inner_dot <==> exists|j: int| 0 < j < i - from && j < d.len() - 1 && d[j] == '.',
        decreases s.len() - i,
    {
        let c = s[i];
        assert(d[i - from] == c);
        if !domain_member(c) {
            return false;
        }
        if c == '.' && i > from && i + 1 < s.len() {
            inner_dot = true;
        }
        i += 1;
    }
    inner_dot
}

/// Whether `s` has the shape of an e-mail address.
pub fn email_shape(s: &Vec<char>) -> (r: bool)
    ensures
        r == is_email(s@),
{
    // The domain holds no `@`, so only the last `@` can precede it.
    let mut i: usize = s.len();
    while i > 0
        invariant
            i <= s.len(),
            forall|k: int| i <= k < s.len() ==> s@[k] != '@',
        decreases i,
    {
        i -= 1;
        if s[i] == '@' {
            let r = i > 0 && domain_like_from(s, i + 1);
            proof {
                if !r {
                    assert forall|k: int| 0 < k < s.len() && s@[k] == '@' implies !is_domain_like(
                        s@.skip(k + 1),
                    ) by {
                        if k < i {
                            assert(s@.skip(k + 1)[i - k - 1] == '@');
                        }
                    }
                }
            }
            return r;
        }
    }
    false
}

/// Whether `s` begins like a path.
pub fn path_shape(s: &Vec<char>) -> (r: bool)
    ensures
        r == is_path(s@),
{
    if starts_with_literal(s, "/") || starts_with_literal(s, "~/") || starts_with_literal(s, "./")
        || starts_with_literal(s, "../") || starts_with_literal(s, "\\\\") {
        return true;
    }
    s.len() >= 3 && (upper(s[0]) || lower(s[0])) && s[1] == ':' && (s[2] == '\\' || s[2] == '/')
}

/// Whether `s` names a registry hive.
pub fn registry_shape(s: &Vec<char>) -> (r: bool)
    ensures
        r == is_registry(s@),
{
    contains_literal(s, "HKEY_") || contains_literal(s, "HKLM\\") || contains_literal(s, "HKCU\\")
        || contains_literal(s, "HKCR\\") || contains_literal(s, "HKU\\") || contains_literal(
        s,
        "HKCC\\",
    )
}

/// Whether `s` ends like the name of a library or module.
pub fn library_shape(s: &Vec<char>) -> (r: bool)
    ensures
        r == is_library(s@),
{
    let l = to_ascii_lower(s);
    ends_with_literal(&l, ".dll") || ends_with_literal(&l, ".so") || ends_with_literal(&l, ".dylib")
        || ends_with_literal(&l, ".sys") || contains_literal(&l, ".so.")
}

/// Whether `s` is an identifier in Pascal case.
pub fn api_call_shape(s: &Vec<char>) -> (r: bool)
    ensures
        r == is_api_call(s@),
{
    if s.len() == 0 || !upper(s[0]) {
        return false;
    }
    let mut later_upper = false;
    let mut any_lower = false;
    let mut i: usize = 0;
    while i < s.len()
        invariant
            i <= s.len(),
            forall|k: int| 0 <= k < i ==> is_ascii_alphanumeric(s@[k]),
            later_upper <==> exists|k: int| 0 < k < i && is_ascii_upper(s@[k]),
            any_lower <==> exists|k: int| 0 <= k < i && is_ascii_lower(s@[k]),
        decreases s.len() - i,
    {
        let c = s[i];
        if !alphanumeric(c) {
            return false;
        }
        if i > 0 && upper(c) {
            later_upper = true;
        }
        if lower(c) {
            any_lower = true;
        }
        i += 1;
    }
    later_upper && any_lower
}

/// Whether `s` looks like the invocation of a program or shell.
pub fn command_shape(s: &Vec<char>) -> (r: bool)
    ensures
        r == is_command(s@),
{
    if starts_with_literal(s, "/bin/") || starts_with_literal(s, "/sbin/") || starts_with_literal(
        s,
        "/usr/bin/",
    ) || starts_with_literal(s, "/usr/sbin/") {
        return true;
    }
    let l = to_ascii_lower(s);
    contains_literal(&l, "cmd.exe") || contains_literal(&l, "cmd /c") || contains_literal(
        &l,
        "powershell",
    ) || contains_literal(&l, "wscript") || contains_literal(&l, "cscript") || contains_literal(
        &l,
        "/bin/sh",
    ) || contains_literal(&l, "/bin/bash") || contains_literal(&l, "bash -c") || contains_literal(
        &l,
        "sh -c",
    )
}

/// Adds the category named `label` to `list` if `applies`.
fn push_label(list: &mut Vec<Category>, applies: bool, label: &str)
    requires
        forall|i: int| 0 <= i < old(list)@.len() ==> (#[trigger] old(list)@[i]).severity is None,
    ensures
        category_names(final(list)@) == category_names(old(list)@) + label_if(applies, label@),
        forall|i: int| 0 <= i < final(list)@.len() ==> (#[trigger] final(list)@[i]).severity is None,
{
    if applies {
        list.push(Category { name: label.to_owned(), severity: None });
        assert(category_names(list@) =~= category_names(old(list)@) + seq![label@]);
    } else {
        assert(category_names(list@) =~= category_names(old(list)@) + Seq::<Seq<char>>::empty());
    }
}

impl DefaultCategorizer {
    pub fn new() -> (r: Self) {
        DefaultCategorizer {  }
    }
}

impl Default for DefaultCategorizer {
    fn default() -> (r: Self) {
        DefaultCategorizer {  }
    }
}

impl Categorizer for DefaultCategorizer {
    /// The categories of the rules that recognise `value`, in the order of
    /// the rules, or `generic` alone; never an empty list, and none with a
    /// severity.
    fn categorize(&self, value: &str) -> (r: Vec<Category>)
        ensures
            category_names(r@) == labels_of(value@),
            r@.len() > 0,
            forall|i: int| 0 <= i < r@.len() ==> (#[trigger] r@[i]).severity is None,
    {
        let s = chars_of(value);
        let mut list: Vec<Category> = Vec::new();
        assert(category_names(list@) =~= Seq::<Seq<char>>::empty());
        push_label(&mut list, contains_literal(&s, "://"), "url");
        let ip = has_groups(&s, '.', false, 3, 4) || has_groups(&s, ':', true, 4, 8);
        push_label(&mut list, ip, "ip_address");
        push_label(&mut list, email_shape(&s), "email");
        push_label(&mut list, path_shape(&s), "path");
        push_label(&mut list, registry_shape(&s), "registry");
        push_label(&mut list, library_shape(&s), "library");
        push_label(&mut list, api_call_shape(&s), "api_call");
        push_label(&mut list, command_shape(&s), "command");
        assert(category_names(list@) =~= specific_labels(value@));
        assert(list@.len() == category_names(list@).len());
        if list.len() == 0 {
            push_label(&mut list, true, "generic");
            assert(category_names(list@) =~= seq!["generic"@]);
        }
        assert(list@.len() == category_names(list@).len());
        list
    }
}

} // verus!
