//! Character-level helpers: the token in front of the cursor, dotted names,
//! and the order and prefix relations on strings that ranking relies on.
use vstd::prelude::*;
use vstd::std_specs::iter::IteratorSpec;

verus! {

/// What `char::is_alphanumeric` answers for `c`: membership in the Unicode
/// classes Alphabetic or Numeric.
pub uninterp spec fn unicode_alphanumeric(c: char) -> bool;

/// Calls `char::is_alphanumeric`. Trusted: the answer is the one named by
/// [`unicode_alphanumeric`], a function of the character alone.
#[verifier::external_body]
fn char_is_alphanumeric(c: char) -> (r: bool)
    ensures
        r == unicode_alphanumeric(c),
{
    c.is_alphanumeric()
}

/// Specifies `String::push` of the standard library: afterwards the string
/// is what it was, with `ch` at its end. Trusted.
pub assume_specification[ String::push ](s: &mut String, ch: char)
    ensures
        final(s)@ == old(s)@.push(ch),
;

/// The ASCII letters and digits.
pub open spec fn is_ascii_alphanumeric(c: char) -> bool {
    ||| 'a' <= c <= 'z'
    ||| 'A' <= c <= 'Z'
    ||| '0' <= c <= '9'
}

/// The characters a token is made of: alphanumerics, the underscore and the
/// dot. Within ASCII the alphanumerics are the letters and digits; beyond
/// ASCII Unicode decides.
pub open spec fn is_token_char(c: char) -> bool {
    if c <= '\x7f' {
        is_ascii_alphanumeric(c) || c == '_' || c == '.'
    } else {
        unicode_alphanumeric(c)
    }
}

/// Decides [`is_token_char`].
pub fn token_char(c: char) -> (r: bool)
    ensures
        r == is_token_char(c),
{
    if c <= '\x7f' {
        ('a' <= c && c <= 'z') || ('A' <= c && c <= 'Z') || ('0' <= c && c <= '9') || c == '_'
            || c == '.'
    } else {
        char_is_alphanumeric(c)
    }
}

/// Where the token that ends at `position` begins: the least index from
/// which every character up to `position` is a token character.
pub open spec fn token_start(text: Seq<char>, position: int) -> int
    decreases position,
{
    if position <= 0 || position > text.len() || !is_token_char(text[position - 1]) {
        position
    } else {
        token_start(text, position - 1)
    }
}

/// The token in front of `position`; empty when `position` lies beyond the
/// text.
pub open spec fn token_at(text: Seq<char>, position: int) -> Seq<char> {
    if 0 <= position <= text.len() {
        text.subrange(token_start(text, position), position)
    } else {
        Seq::empty()
    }
}

/// `token_start` is the left end of the longest run of token characters
/// that ends at `position`.
pub proof fn lemma_token_start(text: Seq<char>, position: int)
    requires
        0 <= position <= text.len(),
    ensures
        0 <= token_start(text, position) <= position,
        forall|i: int|
            token_start(text, position) <= i < position ==> is_token_char(#[trigger] text[i]),
        token_start(text, position) > 0 ==> !is_token_char(
            text[token_start(text, position) - 1],
        ),
    decreases position,
{
    if position > 0 && is_token_char(text[position - 1]) {
        lemma_token_start(text, position - 1);
    }
}

/// The characters of `s`, in order.
pub fn to_chars(s: &str) -> (chars: Vec<char>)
    ensures
        chars@ == s@,
{
    let mut chars: Vec<char> = Vec::new();
    for c in it: s.chars()
        invariant
            chars@ == it.seq().take(it.index() as int),
            it.seq() == s@,
    {
        chars.push(c);
    }
    chars
}

/// The string made of `chars[from..to]`.
pub(crate) fn string_of(chars: &Vec<char>, from: usize, to: usize) -> (s: String)
    requires
        from <= to <= chars@.len(),
    ensures
        s@ == chars@.subrange(from as int, to as int),
{
    let mut s = String::new();
    let mut i: usize = from;
    while i < to
        invariant
            from <= i <= to <= chars@.len(),
            s@ == chars@.subrange(from as int, i as int),
        decreases to - i,
    {
        s.push(chars[i]);
        i += 1;
    }
    s
}

/// Isolates the identifier or dotted path that ends at the cursor.
///
/// `position` counts characters. The token is the longest run of token
/// characters that ends there; it is empty at position 0 and at any
/// position beyond the end of `text`.
pub fn extract_prefix_at_position(text: &str, position: usize) -> (token: String)
    ensures
        token@ == token_at(text@, position as int),
        token@.len() <= position,
        position == 0 || position > text@.len() ==> token@.len() == 0,
        forall|i: int| 0 <= i < token@.len() ==> is_token_char(#[trigger] token@[i]),
        position <= text@.len() ==> token@ == text@.subrange(position - token@.len(), position as int),
        token@.len() < position <= text@.len() ==> !is_token_char(
            text@[position - token@.len() - 1],
        ),
{
    if position == 0 {
        return String::new();
    }
    let chars = to_chars(text);
    if position > chars.len() {
        return String::new();
    }
    let mut start: usize = position;
    while start > 0 && token_char(chars[start - 1])
        invariant
            start <= position <= chars@.len(),
            token_start(chars@, position as int) == token_start(chars@, start as int),
        decreases start,
    {
        start -= 1;
    }
    proof {
        lemma_token_start(text@, position as int);
    }
    string_of(&chars, start, position)
}

/// Index of the last dot of `s`, or -1 when it has none.
pub open spec fn last_dot(s: Seq<char>) -> int
    decreases s.len(),
{
    if s.len() == 0 {
        -1
    } else if s.last() == '.' {
        s.len() - 1
    } else {
        last_dot(s.drop_last())
    }
}

/// `last_dot` is a dot that no dot follows, and -1 only where there is none.
pub proof fn lemma_last_dot(s: Seq<char>)
    ensures
        -1 <= last_dot(s) < s.len(),
        last_dot(s) >= 0 ==> s[last_dot(s)] == '.',
        forall|i: int| last_dot(s) < i < s.len() ==> #[trigger] s[i] != '.',
    decreases s.len(),
{
    if s.len() > 0 && s.last() != '.' {
        lemma_last_dot(s.drop_last());
        assert forall|i: int| last_dot(s) < i < s.len() implies #[trigger] s[i] != '.' by {
            if i < s.len() - 1 {
                assert(s.drop_last()[i] == s[i]);
            }
        }
    }
}

/// Splits a token at its last dot into an alias and a member prefix, when
/// the dot is there and something stands before it.
pub open spec fn qualified_split(token: Seq<char>) -> Option<(Seq<char>, Seq<char>)> {
    let d = last_dot(token);
    if d > 0 {
        Some((token.subrange(0, d), token.subrange(d + 1, token.len() as int)))
    } else {
        None
    }
}

/// The part of a dotted name after its last dot; the whole name when it
/// has no dot.
pub open spec fn last_segment(ident: Seq<char>) -> Seq<char> {
    ident.subrange(last_dot(ident) + 1, ident.len() as int)
}

/// Finds the last dot of `chars`: `Some(d)` with `d == last_dot`, or `None`.
fn find_last_dot(chars: &Vec<char>) -> (r: Option<usize>)
    ensures
        match r {
            Some(d) => d < chars@.len() && d as int == last_dot(chars@),
            None => last_dot(chars@) == -1,
        },
{
    let mut end: usize = chars.len();
    assert(chars@.take(end as int) == chars@);
    while end > 0
        invariant
            end <= chars@.len(),
            last_dot(chars@) == last_dot(chars@.take(end as int)),
        decreases end,
    {
        if chars[end - 1] == '.' {
            return Some(end - 1);
        }
        proof {
            assert(chars@.take(end as int).drop_last() == chars@.take(end - 1));
        }
        end -= 1;
    }
    None
}

/// Tells a qualified access `alias.member` from a bare identifier.
///
/// The token is cut at its last dot. The answer is `Some` exactly when a dot
/// stands at some index other than 0; the member prefix may be empty. The
/// cursor position plays no part.
pub fn extract_module_member_context(prefix: &str, _position: usize) -> (r: Option<
    (String, String),
>)
    ensures
        match r {
            Some((alias, member)) => {
                &&& qualified_split(prefix@) == Some((alias@, member@))
                &&& prefix@ == alias@ + seq!['.'] + member@
                &&& alias@.len() > 0
                &&& !member@.contains('.')
            },
            None => qualified_split(prefix@) is None,
        },
        r is None <==> forall|i: int| 1 <= i < prefix@.len() ==> #[trigger] prefix@[i] != '.',
{
    let chars = to_chars(prefix);
    let len: usize = chars.len();
    proof {
        lemma_last_dot(prefix@);
    }
    match find_last_dot(&chars) {
        Some(d) => {
            if d > 0 {
                let alias = string_of(&chars, 0, d);
                let member = string_of(&chars, d + 1, len);
                assert(prefix@ =~= alias@ + seq!['.'] + member@);
                Some((alias, member))
            } else {
                None
            }
        },
        None => None,
    }
}

/// Strips the qualification from a dotted identifier: `io.main.writer`
/// gives `writer`.
pub fn extract_last_ident_part(ident: &str) -> (part: String)
    ensures
        part@ == last_segment(ident@),
        !part@.contains('.'),
        part@.len() == ident@.len() || ident@[ident@.len() - part@.len() - 1] == '.',
{
    let chars = to_chars(ident);
    let len: usize = chars.len();
    proof {
        lemma_last_dot(ident@);
    }
    match find_last_dot(&chars) {
        Some(d) => string_of(&chars, d + 1, len),
        None => string_of(&chars, 0, len),
    }
}

/// Lexicographic order on strings, character by character in code-point
/// order; a proper prefix comes before its extensions.
pub open spec fn lex_lt(a: Seq<char>, b: Seq<char>) -> bool
    decreases a.len(),
{
    if b.len() == 0 {
        false
    } else if a.len() == 0 {
        true
    } else if a[0] != b[0] {
        a[0] < b[0]
    } else {
        lex_lt(a.drop_first(), b.drop_first())
    }
}

/// No string comes before itself.
pub proof fn lemma_lex_irreflexive(a: Seq<char>)
    ensures
        !lex_lt(a, a),
    decreases a.len(),
{
    if a.len() > 0 {
        lemma_lex_irreflexive(a.drop_first());
    }
}

/// Of two different strings exactly one comes before the other.
pub proof fn lemma_lex_total(a: Seq<char>, b: Seq<char>)
    ensures
        a != b ==> (lex_lt(a, b) || lex_lt(b, a)),
        !(lex_lt(a, b) && lex_lt(b, a)),
    decreases a.len(),
{
    if a.len() > 0 && b.len() > 0 && a[0] == b[0] {
        lemma_lex_total(a.drop_first(), b.drop_first());
        if a.drop_first() == b.drop_first() {
            assert(a =~= seq![a[0]] + a.drop_first());
            assert(b =~= seq![b[0]] + b.drop_first());
        }
    } else if a.len() == 0 && b.len() == 0 {
        assert(a =~= b);
    }
}

/// The order is transitive.
pub proof fn lemma_lex_transitive(a: Seq<char>, b: Seq<char>, c: Seq<char>)
    requires
        lex_lt(a, b),
        lex_lt(b, c),
    ensures
        lex_lt(a, c),
    decreases a.len(),
{
    if a.len() > 0 && a[0] == b[0] && b[0] == c[0] {
        lemma_lex_transitive(a.drop_first(), b.drop_first(), c.drop_first());
    }
}

/// Decides [`lex_lt`].
pub fn str_lt(a: &str, b: &str) -> (r: bool)
    ensures
        r == lex_lt(a@, b@),
{
    let mut ia = a.chars();
    let mut ib = b.chars();
    loop
        invariant
            lex_lt(a@, b@) == lex_lt(ia.remaining(), ib.remaining()),
            ia.obeys_prophetic_iter_laws(),
            ib.obeys_prophetic_iter_laws(),
            ia.decrease() is Some,
        decreases ia.decrease()->0,
    {
        let x = ia.next();
        let y = ib.next();
        match (x, y) {
            (_, None) => {
                return false;
            },
            (None, Some(_)) => {
                return true;
            },
            (Some(c), Some(d)) => {
                if c != d {
                    return c < d;
                }
            },
        }
    }
}

/// Two non-empty strings are equal when their first characters and their
/// remainders are.
proof fn lemma_equal_step(s: Seq<char>, t: Seq<char>)
    requires
        s.len() > 0,
        t.len() > 0,
    ensures
        (s == t) == (s[0] == t[0] && s.drop_first() == t.drop_first()),
{
    if s[0] == t[0] && s.drop_first() == t.drop_first() {
        assert(s =~= seq![s[0]] + s.drop_first());
        assert(t =~= seq![t[0]] + t.drop_first());
    }
}

/// Whether two strings are the same, character for character.
pub fn str_eq(a: &str, b: &str) -> (r: bool)
    ensures
        r == (a@ == b@),
{
    let mut ia = a.chars();
    let mut ib = b.chars();
    loop
        invariant
            (a@ == b@) == (ia.remaining() == ib.remaining()),
            ia.obeys_prophetic_iter_laws(),
            ib.obeys_prophetic_iter_laws(),
            ia.decrease() is Some,
        decreases ia.decrease()->0,
    {
        let ghost s = ia.remaining();
        let ghost t = ib.remaining();
        let x = ia.next();
        let y = ib.next();
        match (x, y) {
            (None, None) => {
                assert(s =~= t);
                return true;
            },
            (Some(c), Some(d)) => {
                if c != d {
                    return false;
                }
                proof {
                    lemma_equal_step(s, t);
                }
            },
            _ => {
                return false;
            },
        }
    }
}

/// A non-empty prefix relation peels off one character at a time.
proof fn lemma_prefix_step(p: Seq<char>, s: Seq<char>)
    requires
        p.len() > 0,
        s.len() > 0,
    ensures
        p.is_prefix_of(s) == (p[0] == s[0] && p.drop_first().is_prefix_of(s.drop_first())),
{
    if p.is_prefix_of(s) {
        assert(s.subrange(0, p.len() as int)[0] == s[0]);
        assert forall|i: int| 0 <= i < p.len() - 1 implies p.drop_first()[i]
            == s.drop_first().subrange(0, p.len() - 1)[i] by {
            assert(s.subrange(0, p.len() as int)[i + 1] == s[i + 1]);
        }
        assert(p.drop_first() =~= s.drop_first().subrange(0, p.len() - 1));
    }
    if p[0] == s[0] && p.drop_first().is_prefix_of(s.drop_first()) {
        assert forall|i: int| 0 <= i < p.len() implies p[i] == s.subrange(0, p.len() as int)[i] by {
            if i > 0 {
                assert(p.drop_first()[i - 1] == p[i]);
                assert(s.drop_first().subrange(0, p.len() - 1)[i - 1] == s[i]);
            }
        }
        assert(p =~= s.subrange(0, p.len() as int));
    }
}

/// Whether `s` starts with `prefix`. Every string starts with the empty
/// prefix.
pub fn starts_with(s: &str, prefix: &str) -> (r: bool)
    ensures
        r == prefix@.is_prefix_of(s@),
{
    let mut it = s.chars();
    let mut ip = prefix.chars();
    loop
        invariant
            prefix@.is_prefix_of(s@) == ip.remaining().is_prefix_of(it.remaining()),
            it.obeys_prophetic_iter_laws(),
            ip.obeys_prophetic_iter_laws(),
            ip.decrease() is Some,
        decreases ip.decrease()->0,
    {
        let ghost p = ip.remaining();
        let ghost t = it.remaining();
        match ip.next() {
            None => {
                assert(p =~= t.subrange(0, 0));
                return true;
            },
            Some(pc) => {
                match it.next() {
                    None => {
                        return false;
                    },
                    Some(sc) => {
                        proof {
                            lemma_prefix_step(p, t);
                        }
                        if sc != pc {
                            return false;
                        }
                    },
                }
            },
        }
    }
}

} // verus!
