use vstd::prelude::*;

verus! {

/// The authenticated operator behind a privileged call. The core needs no
/// more of the identity machinery than this: whether a call is privileged at
/// all, and which email an unprivileged caller claims an order under.
pub struct Identity {
    pub email: String,
}

impl View for Identity {
    type V = Seq<char>;

    open spec fn view(&self) -> Seq<char> {
        self.email@
    }
}

impl Identity {
    /// The owner check an order lookup must run under: a privileged caller
    /// sees any order, an anonymous caller only the order placed under the
    /// email it claims.
    pub fn order_lookup_email<'a>(
        identity: &Option<Identity>,
        claimed: &'a Option<String>,
    ) -> (r: Option<&'a String>)
        ensures
            identity is Some ==> r is None,
            identity is None ==> (match claimed {
                Some(e) => r is Some && r->0@ == e@,
                None => r is None,
            }),
    {
        match identity {
            Some(_) => None,
            None => claimed.as_ref(),
        }
    }
}

} // verus!
