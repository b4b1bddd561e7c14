//! Namespaced names of the form `namespace:segment/segment/...`.
use vstd::prelude::*;
use vstd::std_specs::iter::IteratorSpec;
use vstd::string::StrSliceExecFns;
use vstd::string::is_ascii;
use vstd::utf8::is_ascii_chars;
use vstd::string::StringExecFns;
use crate::text::{char_debug, char_debug_text, decimal, push_decimal};

verus! {

broadcast use vstd::string::group_string_axioms;

/// Characters allowed in a namespace or a path segment.
pub open spec fn is_name_char(c: char) -> bool {
    ||| 'a' <= c && c <= 'z'
    ||| '0' <= c && c <= '9'
    ||| c == '_'
    ||| c == '.'
    ||| c == '-'
}

/// The first index at or after `i` where `s` holds `c`.
pub open spec fn find_from(s: Seq<char>, c: char, i: int) -> Option<int>
    decreases s.len() - i,
{
    if i < 0 || i >= s.len() {
        None
    } else if s[i] == c {
        Some(i)
    } else {
        find_from(s, c, i + 1)
    }
}

/// The first character in `s[i..end]` that is not a name character, as an error.
pub open spec fn check_chars(s: Seq<char>, i: int, end: int) -> Option<NameError>
    decreases end - i,
{
    if i < 0 || i >= end || i >= s.len() {
        None
    } else if !is_name_char(s[i]) {
        Some(NameError::BadChar { ch: s[i], at: i as usize })
    } else {
        check_chars(s, i + 1, end)
    }
}

/// The first problem in the path `s[i..]`, where the current segment
/// started at `seg`: an empty segment, or a character that is neither a
/// name character nor `/`.
pub open spec fn check_path(s: Seq<char>, i: int, seg: int) -> Option<NameError>
    decreases s.len() - i,
{
    if i < 0 || i >= s.len() {
        if seg == i {
            Some(NameError::EmptySegment { at: seg as usize })
        } else {
            None
        }
    } else if s[i] == '/' {
        if seg == i {
            Some(NameError::EmptySegment { at: seg as usize })
        } else {
            check_path(s, i + 1, i + 1)
        }
    } else if !is_name_char(s[i]) {
        Some(NameError::BadChar { ch: s[i], at: i as usize })
    } else {
        check_path(s, i + 1, seg)
    }
}

/// What parsing `s` gives: the index of the separating colon, or the
/// first error, checking the namespace first and then each path segment
/// from left to right.
pub open spec fn parse_name(s: Seq<char>) -> Result<int, NameError> {
    match find_from(s, ':', 0) {
        None => Err(NameError::MissingColon),
        Some(c) => if c == 0 {
            Err(NameError::EmptyNamespace)
        } else {
            match check_chars(s, 0, c) {
                Some(e) => Err(e),
                None => match check_path(s, c + 1, c + 1) {
                    Some(e) => Err(e),
                    None => Ok(c),
                },
            }
        },
    }
}

pub open spec fn is_name(s: Seq<char>) -> bool {
    parse_name(s) is Ok
}

/// Index of the colon of a valid name.
pub open spec fn colon_of(s: Seq<char>) -> int {
    parse_name(s)->Ok_0
}

/// `s` split at every `sep`, keeping empty pieces.
pub open spec fn split_on(s: Seq<char>, sep: char) -> Seq<Seq<char>>
    decreases s.len(),
{
    match find_from(s, sep, 0) {
        None => seq![s],
        Some(k) => {
            if 0 <= k < s.len() {
                seq![s.subrange(0, k)] + split_on(s.subrange(k + 1, s.len() as int), sep)
            } else {
                seq![s]
            }
        },
    }
}

/// A validated name: a non-empty namespace, a colon, and one or more
/// non-empty `/`-separated segments, all made of `a-z`, `0-9`, `_`, `.`, `-`.
#[derive(Debug, PartialEq, Eq, Hash, PartialOrd, Ord)]
pub struct Name {
    text: String,
    chars: Vec<char>,
    colon: usize,
}

/// Why a string is not a name. Positions are byte offsets.
#[derive(Debug, PartialEq, Eq, Clone, Copy)]
pub enum NameError {
    MissingColon,
    BadChar { ch: char, at: usize },
    EmptySegment { at: usize },
    EmptyNamespace,
}

/// Number of bytes of `c` in UTF-8.
pub open spec fn utf8_width(c: char) -> nat {
    let u = c as u32;
    if u < 0x80 {
        1
    } else if u < 0x800 {
        2
    } else if u < 0x10000 {
        3
    } else {
        4
    }
}

/// Number of bytes of `c` in UTF-8.
pub fn char_utf8_width(c: char) -> (r: usize)
    ensures
        r == utf8_width(c),
{
    let u = c as u32;
    if u < 0x80 {
        1
    } else if u < 0x800 {
        2
    } else if u < 0x10000 {
        3
    } else {
        4
    }
}

impl NameError {
    /// Byte offset and byte length of the offending part, where there is one.
    pub fn span(&self) -> (r: Option<(usize, usize)>)
        ensures
            r == match *self {
                NameError::BadChar { ch, at } => Some((at, utf8_width(ch) as usize)),
                NameError::EmptySegment { at } => Some((at, 1usize)),
                _ => None::<(usize, usize)>,
            },
    {
        match self {
            NameError::BadChar { ch, at } => Some((*at, char_utf8_width(*ch))),
            NameError::EmptySegment { at } => Some((*at, 1)),
            NameError::MissingColon | NameError::EmptyNamespace => None,
        }
    }
}

/// The characters of `s`.
pub fn str_chars(s: &str) -> (r: Vec<char>)
    ensures
        r@ == s@,
{
    let mut it = s.chars();
    let mut v: Vec<char> = Vec::new();
    loop
        invariant
            v@ + it.remaining() == s@,
            it.obeys_prophetic_iter_laws(),
            it.decrease() is Some,
        ensures
            v@ == s@,
        decreases it.decrease()->0,
    {
        match it.next() {
            Some(c) => {
                v.push(c);
                assert(v@ + it.remaining() =~= s@);
            },
            None => {
                break ;
            },
        }
    }
    v
}

pub fn name_char(c: char) -> (r: bool)
    ensures
        r == is_name_char(c),
{
    ('a' <= c && c <= 'z') || ('0' <= c && c <= '9') || c == '_' || c == '.' || c == '-'
}


/// The first `c` at or after `i` is the one at `k` when none comes between.
proof fn lemma_find_at(s: Seq<char>, c: char, i: int, k: int)
    requires
        0 <= i <= k < s.len(),
        s[k] == c,
        forall|j: int| i <= j < k ==> s[j] != c,
    ensures
        find_from(s, c, i) == Some(k),
    decreases k - i,
{
    if i < k {
        lemma_find_at(s, c, i + 1, k);
    }
}

/// Name characters only, from `i` to `end`: no error.
proof fn lemma_check_chars_ok(s: Seq<char>, i: int, end: int)
    requires
        0 <= i,
        end <= s.len(),
        forall|j: int| i <= j < end ==> is_name_char(#[trigger] s[j]),
    ensures
        check_chars(s, i, end) is None,
    decreases end - i,
{
    if i < end {
        lemma_check_chars_ok(s, i + 1, end);
    }
}

/// The first character from `i` to `end` that is not a name character is
/// the one reported.
proof fn lemma_check_chars_bad(s: Seq<char>, i: int, end: int, k: int)
    requires
        0 <= i <= k < end <= s.len(),
        forall|j: int| i <= j < k ==> is_name_char(#[trigger] s[j]),
        !is_name_char(s[k]),
    ensures
        check_chars(s, i, end) == Some(NameError::BadChar { ch: s[k], at: k as usize }),
    decreases k - i,
{
    if i < k {
        lemma_check_chars_bad(s, i + 1, end, k);
    }
}

/// A path of name characters only, in a segment begun at `seg`, has no
/// error.
proof fn lemma_check_path_ok(s: Seq<char>, i: int, seg: int)
    requires
        0 <= seg <= i <= s.len(),
        seg < s.len(),
        forall|j: int| seg <= j < s.len() ==> is_name_char(#[trigger] s[j]),
    ensures
        check_path(s, i, seg) is None,
    decreases s.len() - i,
{
    if i < s.len() {
        assert(is_name_char(s[i]));
        lemma_check_path_ok(s, i + 1, seg);
    }
}

/// A name is accepted when its namespace and its one segment are made of
/// the letters `a` to `z`, the digits, `_`, `.` and `-`; the colon comes
/// right after the namespace.
pub proof fn lemma_plain_name_accepted(ns: Seq<char>, seg: Seq<char>)
    requires
        ns.len() > 0,
        seg.len() > 0,
        forall|j: int|
            0 <= j < ns.len() ==> {
                let c = #[trigger] ns[j];
                ('a' <= c && c <= 'z') || ('0' <= c && c <= '9') || c == '_' || c == '.' || c == '-'
            },
        forall|j: int|
            0 <= j < seg.len() ==> {
                let c = #[trigger] seg[j];
                ('a' <= c && c <= 'z') || ('0' <= c && c <= '9') || c == '_' || c == '.' || c == '-'
            },
    ensures
        parse_name(ns + seq![':'] + seg) == Ok::<int, NameError>(ns.len() as int),
{
    let s = ns + seq![':'] + seg;
    let c = ns.len() as int;
    assert(s[c] == ':');
    assert forall|j: int| 0 <= j < c implies s[j] != ':' && is_name_char(#[trigger] s[j]) by {
        assert(s[j] == ns[j]);
    }
    assert forall|j: int| c + 1 <= j < s.len() implies is_name_char(#[trigger] s[j]) by {
        assert(s[j] == seg[j - c - 1]);
    }
    lemma_find_at(s, ':', 0, c);
    lemma_check_chars_ok(s, 0, c);
    lemma_check_path_ok(s, c + 1, c + 1);
}

/// In the namespace, the first character that is not one of the letters
/// `a` to `z`, the digits, `_`, `.` or `-` is reported, with its offset.
pub proof fn lemma_bad_namespace_char(s: Seq<char>, k: int, c: int)
    requires
        0 <= k < c < s.len(),
        s[c] == ':',
        forall|j: int| 0 <= j < c ==> #[trigger] s[j] != ':',
        forall|j: int|
            0 <= j < k ==> {
                let x = #[trigger] s[j];
                ('a' <= x && x <= 'z') || ('0' <= x && x <= '9') || x == '_' || x == '.' || x == '-'
            },
        !(('a' <= s[k] && s[k] <= 'z') || ('0' <= s[k] && s[k] <= '9') || s[k] == '_' || s[k] == '.' || s[k]
            == '-'),
    ensures
        parse_name(s) == Err::<int, NameError>(NameError::BadChar { ch: s[k], at: k as usize }),
{
    lemma_find_at(s, ':', 0, c);
    assert forall|j: int| 0 <= j < k implies is_name_char(#[trigger] s[j]) by {}
    lemma_check_chars_bad(s, 0, c, k);
}

pub proof fn lemma_find_from(s: Seq<char>, c: char, i: int)
    requires
        0 <= i,
    ensures
        match find_from(s, c, i) {
            Some(k) => i <= k < s.len() && s[k] == c && forall|j: int| i <= j < k ==> s[j] != c,
            None => forall|j: int| i <= j < s.len() ==> s[j] != c,
        },
    decreases s.len() - i,
{
    if i < s.len() && s[i] != c {
        lemma_find_from(s, c, i + 1);
    }
}

pub proof fn lemma_check_chars(s: Seq<char>, i: int, end: int)
    requires
        0 <= i,
        check_chars(s, i, end) is None,
    ensures
        forall|j: int| i <= j < end && j < s.len() ==> is_name_char(s[j]),
    decreases end - i,
{
    if i < end && i < s.len() {
        lemma_check_chars(s, i + 1, end);
    }
}

pub proof fn lemma_check_path(s: Seq<char>, i: int, seg: int)
    requires
        0 <= i,
        seg <= i,
        check_path(s, i, seg) is None,
    ensures
        forall|j: int| i <= j < s.len() ==> is_name_char(#[trigger] s[j]) || s[j] == '/',
        i < s.len() || seg < i,
    decreases s.len() - i,
{
    if i < s.len() {
        if s[i] == '/' {
            lemma_check_path(s, i + 1, i + 1);
        } else {
            lemma_check_path(s, i + 1, seg);
        }
    }
}

/// A valid name is ASCII, its colon is its first colon and splits it into a
/// non-empty namespace and a non-empty path, and the path holds no colon.
pub proof fn lemma_name_shape(s: Seq<char>)
    requires
        is_name(s),
    ensures
        is_ascii_chars(s),
        0 < colon_of(s) < s.len() - 1,
        s[colon_of(s)] == ':',
        forall|j: int| 0 <= j < colon_of(s) ==> is_name_char(#[trigger] s[j]),
        forall|j: int|
            colon_of(s) < j < s.len() ==> is_name_char(#[trigger] s[j]) || s[j] == '/',
        find_from(s, ':', 0) == Some(colon_of(s)),
{
    lemma_find_from(s, ':', 0);
    let c = colon_of(s);
    lemma_check_chars(s, 0, c);
    lemma_check_path(s, c + 1, c + 1);
    assert forall|i| 0 <= i < s.len() implies '\0' <= #[trigger] s[i] <= '\u{7f}' by {
        if i < c {
            assert(is_name_char(s[i]));
        } else if i > c {
            assert(is_name_char(s[i]) || s[i] == '/');
        }
    }
}

impl View for Name {
    type V = Seq<char>;

    closed spec fn view(&self) -> Seq<char> {
        self.text@
    }
}

impl Name {
    #[verifier::type_invariant]
    spec fn inv(self) -> bool {
        &&& parse_name(self.text@) == Ok::<int, NameError>(self.colon as int)
        &&& self.chars@ == self.text@
    }

    /// Parses `s`; succeeds exactly on valid names.
    pub fn parse(s: &str) -> (r: Result<Name, NameError>)
        ensures
            match parse_name(s@) {
                Ok(_) => r matches Ok(n) && n@ == s@,
                Err(e) => r == Err::<Name, NameError>(e),
            },
    {
        let cs = str_chars(s);
        let n = cs.len();
        let mut i: usize = 0;
        while i < n && cs[i] != ':'
            invariant
                i <= n,
                n == cs@.len(),
                cs@ == s@,
                find_from(s@, ':', 0) == find_from(s@, ':', i as int),
            decreases n - i,
        {
            i = i + 1;
        }
        if i == n {
            return Err(NameError::MissingColon);
        }
        let colon = i;
        if colon == 0 {
            return Err(NameError::EmptyNamespace);
        }
        let mut j: usize = 0;
        while j < colon
            invariant
                j <= colon < n,
                0 < colon,
                n == cs@.len(),
                cs@ == s@,
                check_chars(s@, 0, colon as int) == check_chars(s@, j as int, colon as int),
                find_from(s@, ':', 0) == Some(colon as int),
            decreases colon - j,
        {
            if !name_char(cs[j]) {
                return Err(NameError::BadChar { ch: cs[j], at: j });
            }
            j = j + 1;
        }
        let mut k: usize = colon + 1;
        let mut seg: usize = colon + 1;
        while k < n
            invariant
                0 < colon < seg <= k <= n,
                n == cs@.len(),
                cs@ == s@,
                check_path(s@, colon + 1, colon + 1) == check_path(s@, k as int, seg as int),
                find_from(s@, ':', 0) == Some(colon as int),
                check_chars(s@, 0, colon as int) is None,
            decreases n - k,
        {
            let c = cs[k];
            if c == '/' {
                if seg == k {
                    return Err(NameError::EmptySegment { at: seg });
                }
                seg = k + 1;
            } else if !name_char(c) {
                return Err(NameError::BadChar { ch: c, at: k });
            }
            k = k + 1;
        }
        if seg == n {
            return Err(NameError::EmptySegment { at: seg });
        }
        let text = s.to_owned();
        Ok(Name { text, chars: cs, colon })
    }

    /// The whole name.
    pub fn as_str(&self) -> (r: &str)
        ensures
            r@ == self@,
            is_ascii_chars(r@),
    {
        proof {
            use_type_invariant(self);
            lemma_name_shape(self.text@);
        }
        self.text.as_str()
    }

    /// The characters of the name.
    pub fn chars(&self) -> (r: &Vec<char>)
        ensures
            r@ == self@,
            is_name(self@),
            is_ascii_chars(self@),
    {
        proof {
            use_type_invariant(self);
            lemma_name_shape(self.text@);
        }
        &self.chars
    }

    /// The part before the colon.
    pub fn namespace(&self) -> (r: &str)
        ensures
            r@ == name_namespace(self@),
    {
        proof {
            use_type_invariant(self);
            lemma_name_shape(self.text@);
        }
        self.text.as_str().substring_ascii(0, self.colon)
    }

    /// The part after the colon.
    pub fn path(&self) -> (r: &str)
        ensures
            r@ == name_path(self@),
    {
        proof {
            use_type_invariant(self);
            lemma_name_shape(self.text@);
            assert(self.chars@.len() == self.text@.len());
        }
        let n = self.chars.len();
        self.text.as_str().substring_ascii(self.colon + 1, n)
    }

    /// The `/`-separated segments of the path, in order.
    pub fn segments(&self) -> (r: Vec<&str>)
        ensures
            r@.map_values(|x: &str| x@) == split_on(name_path(self@), '/'),
    {
        proof {
            use_type_invariant(self);
            lemma_name_shape(self.text@);
        }
        let text = self.text.as_str();
        let n = self.chars.len();
        let ghost path = name_path(self@);
        let ghost base = self.colon + 1;
        let mut out: Vec<&str> = Vec::new();
        let mut start: usize = self.colon + 1;
        let mut i: usize = start;
        proof {
            assert(self.text@.subrange(start as int, n as int) =~= path);
        }
        while i < n
            invariant
                base == self.colon + 1,
                self.colon + 1 <= start <= i <= n,
                n == self@.len(),
                n == self.chars@.len(),
                self.chars@ == self@,
                text@ == self@,
                is_ascii_chars(text@),
                path == self@.subrange(base, n as int),
                forall|j: int| start <= j < i ==> self@[j] != '/',
                out@.map_values(|x: &str| x@) + split_on(self@.subrange(start as int, n as int), '/')
                    == split_on(path, '/'),
            decreases n - i,
        {
            if self.chars[i] == '/' {
                let piece = text.substring_ascii(start, i);
                proof {
                    let t = self@.subrange(start as int, n as int);
                    lemma_find_from(t, '/', 0);
                    assert(t[i - start] == '/');
                    assert(find_from(t, '/', 0) == Some(i - start));
                    assert(t.subrange(0, i - start) =~= self@.subrange(start as int, i as int));
                    assert(t.subrange(i - start + 1, t.len() as int) =~= self@.subrange(i + 1, n as int));
                    assert(split_on(t, '/') == seq![self@.subrange(start as int, i as int)] + split_on(self@.subrange(i + 1, n as int), '/'));
                }
                let ghost before = out@;
                out.push(piece);
                proof {
                    assert(out@.map_values(|x: &str| x@) =~= before.map_values(|x: &str| x@).push(piece@));
                    assert(out@.map_values(|x: &str| x@) + split_on(self@.subrange(i + 1, n as int), '/') =~= before.map_values(|x: &str| x@) + split_on(self@.subrange(start as int, n as int), '/'));
                }
                start = i + 1;
            }
            i = i + 1;
        }
        let piece = text.substring_ascii(start, n);
        proof {
            let t = self@.subrange(start as int, n as int);
            lemma_find_from(t, '/', 0);
            assert(find_from(t, '/', 0) is None);
            assert(piece@ == t);
        }
        let ghost before = out@;
        out.push(piece);
        proof {
            assert(out@.map_values(|x: &str| x@) =~= before.map_values(|x: &str| x@).push(piece@));
            assert(out@.map_values(|x: &str| x@) =~= before.map_values(|x: &str| x@) + split_on(self@.subrange(start as int, n as int), '/'));
        }
        out
    }
}

/// The namespace of a name.
pub open spec fn name_namespace(s: Seq<char>) -> Seq<char> {
    s.subrange(0, colon_of(s))
}

/// The path of a name.
pub open spec fn name_path(s: Seq<char>) -> Seq<char> {
    s.subrange(colon_of(s) + 1, s.len() as int)
}

impl Clone for Name {
    fn clone(&self) -> (r: Self)
        ensures
            r@ == self@,
    {
        proof {
            use_type_invariant(self);
        }
        Name { text: self.text.clone(), chars: self.chars.clone(), colon: self.colon }
    }
}

impl core::str::FromStr for Name {
    type Err = NameError;

    fn from_str(s: &str) -> (r: Result<Self, Self::Err>)
        ensures
            match parse_name(s@) {
                Ok(_) => r matches Ok(n) && n@ == s@,
                Err(e) => r == Err::<Name, NameError>(e),
            },
    {
        Name::parse(s)
    }
}


/// The message a name error is shown with.
pub open spec fn name_error_message(e: NameError) -> Seq<char> {
    match e {
        NameError::MissingColon => "missing ':' separator"@,
        NameError::BadChar { ch, at } => "invalid character "@ + char_debug_text(ch) + " at byte "@
            + decimal(at as nat),
        NameError::EmptySegment { at } => "empty segment at byte "@ + decimal(at as nat),
        NameError::EmptyNamespace => "empty namespace"@,
    }
}

impl NameError {
    /// The message this error is shown with.
    pub fn to_string(&self) -> (r: String)
        ensures
            r@ == name_error_message(*self),
    {
        match self {
            NameError::MissingColon => String::from_str("missing ':' separator"),
            NameError::BadChar { ch, at } => {
                let mut t = String::from_str("invalid character ");
                let c = char_debug(*ch);
                t.append(c.as_str());
                t.append(" at byte ");
                push_decimal(&mut t, *at as u64);
                t
            },
            NameError::EmptySegment { at } => {
                let mut t = String::from_str("empty segment at byte ");
                push_decimal(&mut t, *at as u64);
                t
            },
            NameError::EmptyNamespace => String::from_str("empty namespace"),
        }
    }
}

impl Name {
    /// The name as an owned string.
    pub fn to_string(&self) -> (r: String)
        ensures
            r@ == self@,
    {
        String::from_str(self.as_str())
    }
}

impl AsRef<str> for Name {
    fn as_ref(&self) -> (r: &str)
        ensures
            r@ == self@,
    {
        self.as_str()
    }
}

} // verus!
