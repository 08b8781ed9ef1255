//! System notifications: whether they are on, and what each one says.
use vstd::prelude::*;
use crate::text::str_eq;

verus! {

/// A notification's title and body.
#[derive(Debug)]
pub struct Notice {
    pub title: String,
    pub body: String,
}

/// Notifications are on unless the setting is exactly "false" (an unset
/// setting means on).
pub fn notifications_enabled(setting: Option<String>) -> (b: bool)
    ensures
        b == !(setting matches Some(v) && v@ == "false"@),
{
    match setting {
        Some(v) => !str_eq(v.as_str(), "false"),
        None => true,
    }
}

fn notice(title: &str, parts: &[&str]) -> (n: Notice)
    ensures
        n.title@ == title@,
        parts@.len() == 3 ==> n.body@ == parts@[0]@ + parts@[1]@ + parts@[2]@,
        parts@.len() == 2 ==> n.body@ == parts@[0]@ + parts@[1]@,
{
    let mut body = String::new();
    let mut i: usize = 0;
    while i < parts.len()
        invariant
            i <= parts@.len(),
            i == 0 ==> body@ == Seq::<char>::empty(),
            i == 1 ==> body@ == parts@[0]@,
            i == 2 ==> body@ == parts@[0]@ + parts@[1]@,
            i == 3 ==> body@ == parts@[0]@ + parts@[1]@ + parts@[2]@,
        decreases parts@.len() - i,
    {
        body.append(parts[i]);
        proof {
            if i == 0 {
                assert(Seq::<char>::empty() + parts@[0]@ =~= parts@[0]@);
            }
        }
        i = i + 1;
    }
    Notice { title: String::from_str(title), body }
}

/// "Transfer complete": "<file> received from <peer>".
pub fn transfer_complete_notice(filename: &str, peer_name: &str) -> (n: Notice)
    ensures
        n.title@ == "Transfer complete"@,
        n.body@ == filename@ + " received from "@ + peer_name@,
{
    notice("Transfer complete", &[filename, " received from ", peer_name])
}

/// "Pairing request": asks the user to open the app to answer.
pub fn pair_request_notice(peer_name: &str) -> (n: Notice)
    ensures
        n.title@ == "Pairing request"@,
        n.body@ == peer_name@ + " wants to pair with this device. Open Synapt to accept or reject."@,
{
    notice("Pairing request", &[peer_name, " wants to pair with this device. Open Synapt to accept or reject."])
}

/// "Device paired": "<peer> is now a trusted device".
pub fn peer_paired_notice(peer_name: &str) -> (n: Notice)
    ensures
        n.title@ == "Device paired"@,
        n.body@ == peer_name@ + " is now a trusted device"@,
{
    notice("Device paired", &[peer_name, " is now a trusted device"])
}

/// "Update available": the version that is ready to install.
pub fn update_available_notice(version: &str) -> (n: Notice)
    ensures
        n.title@ == "Update available"@,
        n.body@ == "Synapt "@ + version@ + " is ready to install. Open Settings to update."@,
{
    notice("Update available", &["Synapt ", version, " is ready to install. Open Settings to update."])
}

/// "Device online": "<peer> is now available".
pub fn peer_online_notice(peer_name: &str) -> (n: Notice)
    ensures
        n.title@ == "Device online"@,
        n.body@ == peer_name@ + " is now available"@,
{
    notice("Device online", &[peer_name, " is now available"])
}

} // verus!
