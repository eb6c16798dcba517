use vstd::prelude::*;

verus! {

/// An outgoing notification: one sender, a subject line and one `To` entry per
/// recipient, in the order given. The body stays empty.
#[derive(Debug)]
pub struct Email {
    pub sender: String,
    pub subject: Vec<u8>,
    pub to: Vec<String>,
}

/// The notification with subject `subject` from `sender` to each of `recipients`.
pub fn make_email(sender: &str, recipients: &Vec<String>, subject: Vec<u8>) -> (r: Email)
    ensures
        r.sender@ == sender@,
        r.subject@ == subject@,
        r.to@ == recipients@,
{
    let mut to: Vec<String> = Vec::new();
    let mut k: usize = 0;
    while k < recipients.len()
        invariant
            k <= recipients@.len(),
            to@ == recipients@.subrange(0, k as int),
        decreases recipients@.len() - k,
    {
        to.push(recipients[k].clone());
        k = k + 1;
        assert(recipients@.subrange(0, k as int) =~= recipients@.subrange(0, k - 1).push(
            recipients@[k - 1],
        ));
    }
    assert(recipients@.subrange(0, k as int) =~= recipients@);
    Email { sender: sender.to_string(), subject, to }
}

} // verus!
