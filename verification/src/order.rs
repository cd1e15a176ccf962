use vstd::prelude::*;

verus! {

/// True for the characters that order codes are drawn from: an alphabet that
/// leaves out visually confusable symbols (0/O, 1/I/L, ...).
pub open spec fn is_code_char(c: char) -> bool {
    "CDEFHJKMNPRTVWXY2345689"@.contains(c)
}

/// Number of symbols in an order code.
pub const ORDER_ID_LEN: usize = 8;

/// Relies on `rand::Rng::gen_range` on the range `0..bound`: returns a value
/// drawn from that range, and panics only when the range is empty.
#[verifier::external_body]
fn random_below(bound: usize) -> (r: usize)
    requires
        1 <= bound,
    ensures
        r < bound,
{
    rand::Rng::gen_range(&mut rand::thread_rng(), 0..bound)
}

/// Relies on `String::push`: appends exactly the given character.
#[verifier::external_body]
pub(crate) fn push_char(s: &mut String, c: char)
    ensures
        final(s)@ == old(s)@.push(c),
{
    s.push(c);
}

/// A random string of `len` symbols from the unambiguous order-code alphabet.
fn unambiguous_str(len: usize) -> (r: String)
    ensures
        r@.len() == len,
        forall|i: int| 0 <= i < len ==> is_code_char(#[trigger] r@[i]),
{
    let alphabet = "CDEFHJKMNPRTVWXY2345689";
    proof {
        reveal_strlit("CDEFHJKMNPRTVWXY2345689");
    }
    let mut r = String::new();
    let mut i: usize = 0;
    while i < len
        invariant
            i <= len,
            r@.len() == i,
            alphabet@ =~= "CDEFHJKMNPRTVWXY2345689"@,
            alphabet@.len() == 23,
            forall|j: int| 0 <= j < i ==> is_code_char(#[trigger] r@[j]),
        decreases len - i,
    {
        let k = random_below(23);
        let c = alphabet.get_char(k);
        proof {
            assert(is_code_char(c)) by {
                assert(alphabet@[k as int] == c);
            }
        }
        push_char(&mut r, c);
        i = i + 1;
    }
    r
}

/// The identity of an order: a short, human-typeable code.
#[derive(Debug, Clone)]
pub struct OrderId(String);

impl View for OrderId {
    type V = Seq<char>;

    closed spec fn view(&self) -> Seq<char> {
        self.0@
    }
}

impl OrderId {
    /// A freshly drawn random order code.
    pub fn new() -> (r: Self)
        ensures
            r@.len() == ORDER_ID_LEN,
            forall|i: int| 0 <= i < r@.len() ==> is_code_char(#[trigger] r@[i]),
    {
        Self(unambiguous_str(ORDER_ID_LEN))
    }

    /// The code as a string slice.
    pub fn as_str(&self) -> (r: &str)
        ensures
            r@ == self@,
    {
        self.0.as_str()
    }

    /// An owned copy of this code.
    pub fn duplicate(&self) -> (r: Self)
        ensures
            r@ == self@,
    {
        Self(self.0.clone())
    }

    /// Whether this code reads exactly as the string `s`.
    pub fn matches_str(&self, s: &String) -> (r: bool)
        ensures
            r == (self@ == s@),
    {
        self.0.eq(s)
    }
}

impl From<String> for OrderId {
    fn from(s: String) -> (r: Self)
        ensures
            r@ == s@,
    {
        Self(s)
    }
}

impl vstd::std_specs::convert::FromSpecImpl<String> for OrderId {
    open spec fn obeys_from_spec() -> bool {
        true
    }

    closed spec fn from_spec(s: String) -> Self {
        OrderId(s)
    }
}

impl PartialEq for OrderId {
    fn eq(&self, other: &Self) -> bool {
        self.0 == other.0
    }
}

impl vstd::std_specs::cmp::PartialEqSpecImpl for OrderId {
    open spec fn obeys_eq_spec() -> bool {
        true
    }

    open spec fn eq_spec(&self, other: &Self) -> bool {
        self@ == other@
    }
}

/// The mathematical value of an order: its code, contact details, amount owed
/// in whole currency units, and the timestamps (unix seconds) of the lifecycle
/// events that have happened to it.
#[verifier::ext_equal]
pub ghost struct OrderModel {
    pub id: Seq<char>,
    pub email: Seq<char>,
    pub name: Seq<char>,
    pub phone: Seq<char>,
    pub amount: int,
    pub created_at: int,
    pub paid_at: Option<int>,
    pub completed_at: Option<int>,
    pub canceled_at: Option<int>,
    pub emailed_at: Option<int>,
}

/// A customer purchase: one row of the order book.
#[derive(Debug)]
pub struct Order {
    pub id: OrderId,
    pub email: String,
    pub name: String,
    pub phone: String,
    pub amount: i32,
    pub created_at: i64,
    pub paid_at: Option<i64>,
    pub completed_at: Option<i64>,
    pub canceled_at: Option<i64>,
    pub emailed_at: Option<i64>,
}

impl Order {
    /// A fresh copy of this row, equal in value.
    pub fn duplicate(&self) -> (r: Order)
        ensures
            r@ == self@,
    {
        Order {
            id: self.id.duplicate(),
            email: self.email.clone(),
            name: self.name.clone(),
            phone: self.phone.clone(),
            amount: self.amount,
            created_at: self.created_at,
            paid_at: self.paid_at,
            completed_at: self.completed_at,
            canceled_at: self.canceled_at,
            emailed_at: self.emailed_at,
        }
    }
}

pub open spec fn opt_time_view(t: Option<i64>) -> Option<int> {
    match t {
        Some(v) => Some(v as int),
        None => None,
    }
}

impl View for Order {
    type V = OrderModel;

    open spec fn view(&self) -> OrderModel {
        OrderModel {
            id: self.id@,
            email: self.email@,
            name: self.name@,
            phone: self.phone@,
            amount: self.amount as int,
            created_at: self.created_at as int,
            paid_at: opt_time_view(self.paid_at),
            completed_at: opt_time_view(self.completed_at),
            canceled_at: opt_time_view(self.canceled_at),
            emailed_at: opt_time_view(self.emailed_at),
        }
    }
}

} // verus!
