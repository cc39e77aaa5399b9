//! The completion record handed back to the caller, and its sort key.
use crate::text::string_of;
use vstd::prelude::*;

verus! {

/// What kind of thing a completion stands for.
#[derive(Debug, Clone, Copy, PartialEq, Eq)]
pub enum CompletionItemKind {
    Variable,
    Parameter,
    Function,
    Constant,
}

/// One completion candidate.
#[derive(Debug, Clone)]
pub struct CompletionItem {
    /// The name shown to the user.
    pub label: String,
    pub kind: CompletionItemKind,
    /// Type information, such as `var: int`.
    pub detail: Option<String>,
    pub documentation: Option<String>,
    /// The text inserted when the candidate is accepted.
    pub insert_text: String,
    /// Tie-break key: the declaration offset, zero-padded.
    pub sort_text: Option<String>,
}

/// A completion candidate as a mathematical value.
pub struct ItemView {
    pub label: Seq<char>,
    pub kind: CompletionItemKind,
    pub detail: Option<Seq<char>>,
    pub documentation: Option<Seq<char>>,
    pub insert_text: Seq<char>,
    pub sort_text: Option<Seq<char>>,
}

/// The characters of an optional string.
pub open spec fn opt_view(s: Option<String>) -> Option<Seq<char>> {
    match s {
        Some(s) => Some(s@),
        None => None,
    }
}

impl View for CompletionItem {
    type V = ItemView;

    open spec fn view(&self) -> ItemView {
        ItemView {
            label: self.label@,
            kind: self.kind,
            detail: opt_view(self.detail),
            documentation: opt_view(self.documentation),
            insert_text: self.insert_text@,
            sort_text: opt_view(self.sort_text),
        }
    }
}

/// The candidates of a list, each as a mathematical value.
pub open spec fn item_views(items: Seq<CompletionItem>) -> Seq<ItemView> {
    items.map_values(|item: CompletionItem| item@)
}

/// The decimal digit `d` as a character.
pub open spec fn digit_char(d: int) -> char {
    (48 + d) as char
}

/// The decimal numeral of `n`, without leading zeros.
pub open spec fn decimal(n: nat) -> Seq<char>
    decreases n,
{
    if n < 10 {
        seq![digit_char(n as int)]
    } else {
        decimal(n / 10).push(digit_char((n % 10) as int))
    }
}

/// `count` zeros.
pub open spec fn zeros(count: nat) -> Seq<char> {
    Seq::new(count, |i: int| '0')
}

/// The decimal numeral of `n`, padded with zeros on the left to at least
/// `width` digits.
pub open spec fn zero_padded(n: nat, width: nat) -> Seq<char> {
    let digits = decimal(n);
    if digits.len() >= width {
        digits
    } else {
        zeros((width - digits.len()) as nat) + digits
    }
}

/// The width of a sort key.
pub const SORT_KEY_WIDTH: usize = 8;

/// Renders a declaration offset as a sort key: eight digits, zero-padded,
/// so that keys of smaller offsets sort first. Offsets of more than eight
/// digits keep all their digits.
pub fn sort_key(pos: usize) -> (key: String)
    ensures
        key@ == zero_padded(pos as nat, SORT_KEY_WIDTH as nat),
        key@.len() >= SORT_KEY_WIDTH,
{
    let mut digits: Vec<char> = Vec::new();
    let mut n: usize = pos;
    while n >= 10
        invariant
            decimal(pos as nat) == decimal(n as nat) + digits@,
        decreases n,
    {
        let d: u8 = (n % 10) as u8;
        let ghost rest = digits@;
        digits.insert(0, (48u8 + d) as char);
        proof {
            let high = decimal((n / 10) as nat);
            assert(decimal(n as nat) == high.push(digit_char((n % 10) as int)));
            assert(high.push(digit_char((n % 10) as int)) + rest =~= high + digits@);
        }
        n = n / 10;
    }
    digits.insert(0, (48u8 + (n as u8)) as char);
    assert(digits@ =~= decimal(pos as nat));
    let ghost numeral = digits@;
    while digits.len() < SORT_KEY_WIDTH
        invariant
            numeral == decimal(pos as nat),
            numeral.len() <= digits@.len(),
            digits@.len() <= SORT_KEY_WIDTH || digits@.len() == numeral.len(),
            digits@ =~= zeros((digits@.len() - numeral.len()) as nat) + numeral,
        decreases SORT_KEY_WIDTH - digits.len(),
    {
        digits.insert(0, '0');
    }
    let len: usize = digits.len();
    assert(digits@.subrange(0, len as int) =~= digits@);
    assert(zeros(0) + numeral =~= numeral);
    string_of(&digits, 0, len)
}

} // verus!
