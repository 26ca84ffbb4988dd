//! Key traits shared by the containers: a total order with an executable
//! three-way comparison, and a rendering trait that turns a value into the
//! text used by the traversal and display routines.

use vstd::prelude::*;
use vstd::string::StrSliceExecFns;
use vstd::string::StringExecFns;

verus! {

/// Result of comparing two keys.
pub enum CmpResult {
    Lt,
    Eq,
    Gt,
}

/// A total order on a copyable key type. `leq` is the specification-level
/// relation; `cmp_with` is the executable comparison that agrees with it.
pub trait TotalOrder: Sized + Copy {
    spec fn leq(self, other: Self) -> bool;

    proof fn lemma_refl(x: Self)
        ensures
            x.leq(x),
    ;

    proof fn lemma_trans(x: Self, y: Self, z: Self)
        requires
            x.leq(y),
            y.leq(z),
        ensures
            x.leq(z),
    ;

    proof fn lemma_antisym(x: Self, y: Self)
        requires
            x.leq(y),
            y.leq(x),
        ensures
            x == y,
    ;

    proof fn lemma_total(x: Self, y: Self)
        ensures
            x.leq(y) || y.leq(x),
    ;

    fn cmp_with(&self, other: &Self) -> (c: CmpResult)
        ensures
            match c {
                CmpResult::Lt => self.leq(*other) && *self != *other,
                CmpResult::Eq => *self == *other,
                CmpResult::Gt => other.leq(*self) && *self != *other,
            },
    ;
}

impl TotalOrder for i32 {
    open spec fn leq(self, other: Self) -> bool {
        self <= other
    }

    proof fn lemma_refl(x: Self) {
    }

    proof fn lemma_trans(x: Self, y: Self, z: Self) {
    }

    proof fn lemma_antisym(x: Self, y: Self) {
    }

    proof fn lemma_total(x: Self, y: Self) {
    }

    fn cmp_with(&self, other: &Self) -> (c: CmpResult) {
        if *self < *other {
            CmpResult::Lt
        } else if *self > *other {
            CmpResult::Gt
        } else {
            CmpResult::Eq
        }
    }
}

impl TotalOrder for char {
    open spec fn leq(self, other: Self) -> bool {
        (self as int) <= (other as int)
    }

    proof fn lemma_refl(x: Self) {
    }

    proof fn lemma_trans(x: Self, y: Self, z: Self) {
    }

    proof fn lemma_antisym(x: Self, y: Self) {
    }

    proof fn lemma_total(x: Self, y: Self) {
    }

    fn cmp_with(&self, other: &Self) -> (c: CmpResult) {
        let sv: char = *self;
        let ov: char = *other;
        if sv < ov {
            CmpResult::Lt
        } else if sv > ov {
            CmpResult::Gt
        } else {
            CmpResult::Eq
        }
    }
}

/// A value that can be rendered as text; `text` is the specification of the
/// exact character sequence that `to_text` produces.
pub trait ToText: Sized {
    spec fn text(self) -> Seq<char>;

    fn to_text(&self) -> (s: String)
        ensures
            s@ == self.text(),
    ;
}

/// The decimal digit character for `d` (meaningful for `0 <= d <= 9`).
pub open spec fn digit_char(d: int) -> char {
    if d == 0 {
        '0'
    } else if d == 1 {
        '1'
    } else if d == 2 {
        '2'
    } else if d == 3 {
        '3'
    } else if d == 4 {
        '4'
    } else if d == 5 {
        '5'
    } else if d == 6 {
        '6'
    } else if d == 7 {
        '7'
    } else if d == 8 {
        '8'
    } else {
        '9'
    }
}

/// Decimal digits of a non-negative integer, most significant first.
pub open spec fn nat_text(n: int) -> Seq<char>
    recommends
        n >= 0,
    decreases n,
{
    if n < 10 {
        seq![digit_char(n)]
    } else {
        nat_text(n / 10).push(digit_char(n % 10))
    }
}

/// Decimal rendering of a signed integer.
pub open spec fn int_text(n: int) -> Seq<char> {
    if n < 0 {
        seq!['-'] + nat_text(-n)
    } else {
        nat_text(n)
    }
}

fn digit_str(d: u32) -> (s: &'static str)
    requires
        d < 10,
    ensures
        s@ == seq![digit_char(d as int)],
{
    proof {
        reveal_strlit("0");
        reveal_strlit("1");
        reveal_strlit("2");
        reveal_strlit("3");
        reveal_strlit("4");
        reveal_strlit("5");
        reveal_strlit("6");
        reveal_strlit("7");
        reveal_strlit("8");
        reveal_strlit("9");
    }
    match d {
        0 => "0",
        1 => "1",
        2 => "2",
        3 => "3",
        4 => "4",
        5 => "5",
        6 => "6",
        7 => "7",
        8 => "8",
        _ => "9",
    }
}

fn nat_str(n: u32) -> (s: String)
    ensures
        s@ == nat_text(n as int),
    decreases n,
{
    if n < 10 {
        digit_str(n).to_owned()
    } else {
        let mut s = nat_str(n / 10);
        s.append(digit_str(n % 10));
        proof {
            assert(nat_text((n / 10) as int) + seq![digit_char((n % 10) as int)]
                =~= nat_text(n as int));
        }
        s
    }
}

impl ToText for i32 {
    open spec fn text(self) -> Seq<char> {
        int_text(self as int)
    }

    fn to_text(&self) -> (s: String) {
        if *self < 0 {
            let magnitude: u32 = (-(*self as i64)) as u32;
            let mut s = "-".to_owned();
            s.append(nat_str(magnitude).as_str());
            proof {
                reveal_strlit("-");
                assert(s@ =~= int_text(*self as int));
            }
            s
        } else {
            nat_str(*self as u32)
        }
    }
}

/// Relies on `String::push`: it appends exactly the given character.
#[verifier::external_body]
fn push_char(s: &mut String, c: char)
    ensures
        final(s)@ == old(s)@ + seq![c],
{
    s.push(c);
}

impl ToText for char {
    open spec fn text(self) -> Seq<char> {
        seq![self]
    }

    fn to_text(&self) -> (s: String) {
        let mut s = String::new();
        push_char(&mut s, *self);
        proof {
            assert(s@ =~= seq![*self]);
        }
        s
    }
}

impl<'a> ToText for &'a str {
    open spec fn text(self) -> Seq<char> {
        self@
    }

    fn to_text(&self) -> (s: String) {
        (*self).to_owned()
    }
}

/// The rendered items joined by a comma and a space.
pub open spec fn joined<T: ToText>(s: Seq<T>) -> Seq<char>
    decreases s.len(),
{
    if s.len() == 0 {
        Seq::empty()
    } else if s.len() == 1 {
        s[0].text()
    } else {
        s[0].text() + ", "@ + joined(s.drop_first())
    }
}

/// The display form shared by every container: the items joined by a comma
/// and a space between brackets, or the fixed marker for no items at all.
pub open spec fn rendered<T: ToText>(s: Seq<T>) -> Seq<char> {
    if s.len() == 0 {
        "**[Empty]**"@
    } else {
        "["@ + joined(s) + "]"@
    }
}

proof fn lemma_joined_push<T: ToText>(s: Seq<T>, x: T)
    requires
        s.len() >= 1,
    ensures
        joined(s.push(x)) == joined(s) + ", "@ + x.text(),
    decreases s.len(),
{
    if s.len() == 1 {
        assert(s.push(x).drop_first() =~= seq![x]);
        assert(joined(seq![x]) == x.text());
        assert(joined(s.push(x)) =~= joined(s) + ", "@ + x.text());
    } else {
        assert(s.push(x).drop_first() =~= s.drop_first().push(x));
        lemma_joined_push(s.drop_first(), x);
        assert(joined(s.push(x)) =~= joined(s) + ", "@ + x.text());
    }
}

/// Renders the items in order, as the containers display themselves.
pub fn render_line<T: ToText>(items: &Vec<T>) -> (out: String)
    ensures
        out@ == rendered(items@),
{
    if items.len() == 0 {
        return "**[Empty]**".to_owned();
    }
    let mut out = "[".to_owned();
    out.append(items[0].to_text().as_str());
    proof {
        assert(items@.take(1) =~= seq![items@[0]]);
        assert(out@ =~= "["@ + joined(items@.take(1)));
    }
    let mut j: usize = 1;
    while j < items.len()
        invariant
            1 <= j <= items@.len(),
            out@ == "["@ + joined(items@.take(j as int)),
        decreases items@.len() - j,
    {
        out.append(", ");
        out.append(items[j].to_text().as_str());
        proof {
            assert(items@.take(j as int).push(items@[j as int]) =~= items@.take(j as int + 1));
            lemma_joined_push(items@.take(j as int), items@[j as int]);
            assert(out@ =~= "["@ + joined(items@.take(j as int + 1)));
        }
        j += 1;
    }
    proof {
        assert(items@.take(items@.len() as int) =~= items@);
    }
    out.append("]");
    out
}

} // verus!
