//! The account state of the reader and how login, sign-up and log-out
//! replies change it.

use vstd::prelude::*;
use crate::text::{chars_of, string_from_chars};

verus! {

/// The status word of a successful reply.
pub open spec fn ok_status() -> Seq<char> {
    seq!['O', 'k']
}

/// The user type of a visitor.
pub open spec fn no_user_type() -> Seq<char> {
    seq!['n', 'o', 't', 'h', 'i', 'n', 'g']
}

/// The activation state of an account that may not import or export.
pub open spec fn not_activated() -> Seq<char> {
    seq!['n', 'o', 't', '_', 'a', 'c', 't', 'i', 'v', 'a', 't', 'e']
}

/// The activation state of an account that may import and export.
pub open spec fn activated() -> Seq<char> {
    seq!['a', 'c', 't', 'i', 'v', 'a', 't', 'e']
}

/// The decimal value of a string of digits.
pub open spec fn digits_value(d: Seq<char>) -> int
    decreases d.len(),
{
    if d.len() == 0 {
        0
    } else {
        digits_value(d.drop_last()) * 10 + ((d.last() as int) - ('0' as int))
    }
}

pub open spec fn all_digits(d: Seq<char>) -> bool {
    forall|i: int| 0 <= i < d.len() ==> '0' <= #[trigger] d[i] && d[i] <= '9'
}

/// What `str::parse::<i8>` gives: an optional `+` or `-` followed by at
/// least one decimal digit, whose value lies in the range of `i8`.
pub open spec fn parsed_i8(s: Seq<char>) -> Option<i8> {
    let neg = s.len() > 0 && s[0] == '-';
    let signed = s.len() > 0 && (s[0] == '-' || s[0] == '+');
    let d = if signed { s.drop_first() } else { s };
    if d.len() == 0 || !all_digits(d) {
        None
    } else {
        let v = if neg { -digits_value(d) } else { digits_value(d) };
        if -128 <= v <= 127 { Some(v as i8) } else { None }
    }
}

proof fn lemma_digits_value_nonneg(d: Seq<char>)
    requires
        all_digits(d),
    ensures
        digits_value(d) >= 0,
    decreases d.len(),
{
    if d.len() > 0 {
        assert(all_digits(d.drop_last())) by {
            assert forall|i: int| 0 <= i < d.drop_last().len() implies '0' <= #[trigger] d.drop_last()[i] && d.drop_last()[i] <= '9' by {
                assert(d.drop_last()[i] == d[i]);
            }
        }
        lemma_digits_value_nonneg(d.drop_last());
        assert(d[d.len() - 1] == d.last());
    }
}

/// Reads a decimal `i8` as `str::parse::<i8>` does.
pub fn parse_i8(s: &str) -> (r: Option<i8>)
    ensures
        r == parsed_i8(s@),
{
    let v = chars_of(s);
    let neg = v.len() > 0 && v[0] == '-';
    let signed = v.len() > 0 && (v[0] == '-' || v[0] == '+');
    let start: usize = if signed { 1 } else { 0 };
    let ghost d = if signed { v@.drop_first() } else { v@ };
    assert(d =~= v@.subrange(start as int, v@.len() as int));
    if start == v.len() {
        return None;
    }
    let mut acc: u32 = 0;
    let mut i: usize = start;
    assert(d.take(0) =~= Seq::<char>::empty());
    while i < v.len()
        invariant
            start <= i <= v.len(),
            v@ == s@,
            d == (if v@.len() > 0 && (v@[0] == '-' || v@[0] == '+') { v@.drop_first() } else { v@ }),
            d == v@.subrange(start as int, v@.len() as int),
            all_digits(d.take(i - start)),
            acc == (if digits_value(d.take(i - start)) >= 1000 { 1000 } else { digits_value(d.take(i - start)) }),
        decreases v.len() - i,
    {
        let c = v[i];
        let ghost p = d.take(i - start);
        proof {
            assert(d.take(i + 1 - start).drop_last() =~= p);
            assert(d.take(i + 1 - start).last() == c);
            lemma_digits_value_nonneg(p);
        }
        if !('0' <= c && c <= '9') {
            proof {
                assert(d[i - start] == c);
                assert(!all_digits(d));
            }
            return None;
        }
        let digit: u32 = (c as u32) - ('0' as u32);
        acc = if acc >= 100 { 1000 } else {
            let next = acc * 10 + digit;
            if next >= 1000 { 1000 } else { next }
        };
        i = i + 1;
        proof {
            assert(all_digits(d.take(i - start))) by {
                assert forall|t: int| 0 <= t < d.take(i - start).len() implies '0' <= #[trigger] d.take(i - start)[t] && d.take(i - start)[t] <= '9' by {
                    if t < p.len() {
                        assert(d.take(i - start)[t] == p[t]);
                    }
                }
            }
        }
    }
    assert(d.take(d.len() as int) =~= d);
    if neg {
        if acc <= 128 {
            let m: i32 = acc as i32;
            Some((0 - m) as i8)
        } else {
            None
        }
    } else {
        if acc <= 127 {
            Some(acc as i8)
        } else {
            None
        }
    }
}

/// The account shown by the reader: whether and how the user is logged in.
#[derive(Debug)]
pub struct AccountState {
    pub login_state: i8,
    pub user_type: String,
    pub activation_state: String,
}

/// The outcome of a login or sign-up reply.
#[derive(Debug, PartialEq, Eq)]
pub enum ReplyOutcome {
    /// The account state now holds the reply's values.
    Accepted,
    /// The reply was refused with this status; the state is unchanged.
    Refused(String),
}

fn same_text(s: &String, expected: &Vec<char>) -> (r: bool)
    ensures
        r == (s@ == expected@),
{
    let v = chars_of(s.as_str());
    crate::text::chars_eq(&v, expected)
}

impl AccountState {
    /// A visitor whose account is activated: every user may import and
    /// export records.
    pub fn new() -> (r: Self)
        ensures
            r.login_state == 0,
            r.user_type@ == no_user_type(),
            r.activation_state@ == activated(),
    {
        let user_type = string_from_chars(&vec!['n', 'o', 't', 'h', 'i', 'n', 'g']);
        let activation_state = string_from_chars(&vec!['a', 'c', 't', 'i', 'v', 'a', 't', 'e']);
        assert(user_type@ =~= no_user_type());
        assert(activation_state@ =~= activated());
        AccountState { login_state: 0, user_type, activation_state }
    }

    /// Importing and exporting records is allowed unless the account is
    /// not activated.
    pub open spec fn transfers_allowed(&self) -> bool {
        self.activation_state@ != not_activated()
    }

    /// Whether importing and exporting records is allowed.
    pub fn may_transfer_records(&self) -> (r: bool)
        ensures
            r == self.transfers_allowed(),
    {
        let na = vec!['n', 'o', 't', '_', 'a', 'c', 't', 'i', 'v', 'a', 't', 'e'];
        assert(na@ =~= not_activated());
        !same_text(&self.activation_state, &na)
    }

    /// Logs out: a visitor whose account is not activated.
    pub fn logout(&mut self)
        ensures
            final(self).login_state == 0,
            final(self).user_type@ == no_user_type(),
            final(self).activation_state@ == not_activated(),
    {
        self.login_state = 0;
        self.user_type = string_from_chars(&vec!['n', 'o', 't', 'h', 'i', 'n', 'g']);
        self.activation_state = string_from_chars(&vec!['n', 'o', 't', '_', 'a', 'c', 't', 'i', 'v', 'a', 't', 'e']);
        assert(self.user_type@ =~= no_user_type());
        assert(self.activation_state@ =~= not_activated());
    }

    /// Applies a server reply `(status, login state, user type, activation
    /// state)`: with status "Ok" the account takes the reply's values,
    /// otherwise it is unchanged and the status is handed back.
    pub fn apply_reply(&mut self, reply: (String, String, String, String)) -> (r: ReplyOutcome)
        requires
            reply.0@ == ok_status() ==> parsed_i8(reply.1@) is Some,
        ensures
            reply.0@ == ok_status() ==> {
                &&& r == ReplyOutcome::Accepted
                &&& final(self).login_state == parsed_i8(reply.1@)->0
                &&& final(self).user_type == reply.2
                &&& final(self).activation_state == reply.3
            },
            reply.0@ != ok_status() ==> {
                &&& r matches ReplyOutcome::Refused(s) && s == reply.0
                &&& final(self).login_state == old(self).login_state
                &&& final(self).user_type == old(self).user_type
                &&& final(self).activation_state == old(self).activation_state
            },
    {
        let ok = vec!['O', 'k'];
        assert(ok@ =~= ok_status());
        if same_text(&reply.0, &ok) {
            match parse_i8(reply.1.as_str()) {
                Some(v) => {
                    self.login_state = v;
                },
                None => {},
            }
            self.user_type = reply.2;
            self.activation_state = reply.3;
            ReplyOutcome::Accepted
        } else {
            ReplyOutcome::Refused(reply.0)
        }
    }
}

/// After logging out, records can no longer be imported or exported.
pub proof fn law_logout_closes_transfers(st: AccountState)
    requires
        st.activation_state@ == not_activated(),
    ensures
        !st.transfers_allowed(),
{
}

/// A fresh account may import and export records.
pub proof fn law_new_account_may_transfer(st: AccountState)
    requires
        st.activation_state@ == activated(),
    ensures
        st.transfers_allowed(),
{
    assert(activated()[0] != not_activated()[0]);
}

} // verus!
