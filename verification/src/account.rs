use vstd::prelude::*;

verus! {

/// A canonical, unique account identifier. Every set-membership, union and
/// difference operation in this crate works on canonical identifiers, never
/// on raw handles, so equivalent spellings of one account cannot diverge.
pub struct AccountId {
    pub id: String,
}

impl View for AccountId {
    type V = Seq<char>;

    open spec fn view(&self) -> Seq<char> {
        self.id@
    }
}

impl AccountId {
    pub fn new(id: String) -> (r: AccountId)
        ensures
            r@ == id@,
    {
        AccountId { id }
    }

    /// An explicit copy whose contract keeps the identifier.
    pub fn duplicate(&self) -> (r: AccountId)
        ensures
            r == *self,
            r@ == self@,
    {
        AccountId { id: self.id.clone() }
    }

    pub fn same(&self, other: &AccountId) -> (r: bool)
        ensures
            r == (self@ == other@),
    {
        self.id == other.id
    }
}

/// An account reference as written in configuration: either already canonical,
/// or a human-readable handle that still needs one resolution call.
pub enum AccountRef {
    Did(AccountId),
    Handle(String),
}

/// The canonical identifiers denoted by a sequence of accounts, in order.
pub open spec fn id_views(s: Seq<AccountId>) -> Seq<Seq<char>> {
    s.map_values(|a: AccountId| a@)
}

/// The character sequences of a sequence of strings, in order.
pub open spec fn str_views(s: Seq<String>) -> Seq<Seq<char>> {
    s.map_values(|x: String| x@)
}

} // verus!
