//! Hole-punch strategy selection.
//!
//! The basic punch reuses the outer bind socket and advertises the
//! relay-observed reflexive, which traverses endpoint-independent (cone) NATs.
//! Symmetric NATs map that one socket to a different external port per
//! destination, so the advertised reflexive is wrong and the punch is blocked.
//! These strategies each attack that differently; the caller picks one.

use vstd::prelude::*;

use crate::text::{chars_of, is_text, lowered, quote, quoted, text_of, to_lower, trim, trimmed};

verus! {

/// How a peer attempts to hole-punch past its NAT.
#[derive(Debug, Clone, Copy, PartialEq, Eq, Structural)]
pub enum PunchStrategy {
    /// Reuse the outer socket, advertise the relay-observed reflexive. Works on
    /// endpoint-independent (cone) NATs; the relay carries symmetric ones.
    Basic,
    /// Probe a second relay address to classify the NAT's mapping behaviour and,
    /// for a sequential-allocating symmetric NAT, predict and scan the
    /// peer-facing port. Random-allocating NATs fall back fast.
    Predict,
    /// Open several punch sockets, learn each one's reflexive, and punch the
    /// cross-product — the birthday-paradox attack on a random symmetric NAT.
    Birthday,
    /// Let the on-path relay observe each peer's actual peer-facing source (the
    /// mapping the far NAT created toward the other peer) and signal it, so both
    /// sides dial the real address. Traverses symmetric NATs when the relay
    /// routes between the peers.
    RelayAssisted,
}

impl Default for PunchStrategy {
    fn default() -> (s: Self)
        ensures
            s == PunchStrategy::Basic,
    {
        PunchStrategy::Basic
    }
}

/// A text as it is compared: without the white space around it, in lower
/// case.
pub open spec fn spelling(text: Seq<char>) -> Seq<char> {
    lowered(trimmed(text))
}

fn spelled(text: &str) -> (s: String)
    ensures
        s@ == spelling(text@),
{
    let chars = chars_of(text);
    let cut = trim(chars.as_slice());
    let low = to_lower(cut.as_slice());
    text_of(low.as_slice())
}

/// The strategy that a spelling names.
pub open spec fn strategy_named(name: Seq<char>) -> Option<PunchStrategy> {
    if name == "basic"@ {
        Some(PunchStrategy::Basic)
    } else if name == "predict"@ {
        Some(PunchStrategy::Predict)
    } else if name == "birthday"@ {
        Some(PunchStrategy::Birthday)
    } else if name == "relay-assisted"@ || name == "relay_assisted"@ || name == "relayassisted"@ {
        Some(PunchStrategy::RelayAssisted)
    } else {
        None
    }
}

impl PunchStrategy {
    /// The CLI/token spelling.
    pub open spec fn name(self) -> Seq<char> {
        match self {
            PunchStrategy::Basic => "basic"@,
            PunchStrategy::Predict => "predict"@,
            PunchStrategy::Birthday => "birthday"@,
            PunchStrategy::RelayAssisted => "relay-assisted"@,
        }
    }

    /// Lower-case kebab name, the CLI/token spelling.
    pub fn as_str(self) -> (s: &'static str)
        ensures
            s@ == self.name(),
    {
        match self {
            PunchStrategy::Basic => "basic",
            PunchStrategy::Predict => "predict",
            PunchStrategy::Birthday => "birthday",
            PunchStrategy::RelayAssisted => "relay-assisted",
        }
    }

    /// Read a strategy's name, in any case and with white space around it.
    pub fn parse(text: &str) -> (r: Result<Self, String>)
        ensures
            match strategy_named(spelling(text@)) {
                Some(s) => r == Ok::<Self, String>(s),
                None => r matches Err(e) && e@ == "unknown punch strategy "@ + quoted(
                    spelling(text@),
                ) + " (basic|predict|birthday|relay-assisted)"@,
            },
    {
        let name = spelled(text);
        let n = name.as_str();
        if is_text(n, "basic") {
            Ok(PunchStrategy::Basic)
        } else if is_text(n, "predict") {
            Ok(PunchStrategy::Predict)
        } else if is_text(n, "birthday") {
            Ok(PunchStrategy::Birthday)
        } else if is_text(n, "relay-assisted") || is_text(n, "relay_assisted") || is_text(
            n,
            "relayassisted",
        ) {
            Ok(PunchStrategy::RelayAssisted)
        } else {
            let mut e = String::from_str("unknown punch strategy ");
            e.append(quote(n).as_str());
            e.append(" (basic|predict|birthday|relay-assisted)");
            Err(e)
        }
    }
}

impl std::str::FromStr for PunchStrategy {
    type Err = String;

    fn from_str(s: &str) -> Result<Self, String> {
        PunchStrategy::parse(s)
    }
}

/// Which candidate kinds a peer offers the other.
///
/// Host candidates are the local interface addresses. They are what lets two
/// peers on the same LAN — or behind the same NAT, where hairpinning often
/// fails — reach each other without leaving the network. They also disclose
/// the LAN topology to the peer, which is why they are opt-in.
#[derive(Debug, Clone, Copy, PartialEq, Eq, Structural)]
pub enum DirectMode {
    /// Offer the reflexive (and any port-mapped) candidate only. The peer
    /// learns the public address it would reach anyway.
    Reflexive,
    /// Also offer the local interface address, so same-LAN peers connect
    /// locally. Discloses a private address to the (already authenticated,
    /// SPKI-pinned) peer.
    Full,
    /// Offer nothing and never punch: pin the session to the relay path.
    Off,
}

impl Default for DirectMode {
    fn default() -> (m: Self)
        ensures
            m == DirectMode::Reflexive,
    {
        DirectMode::Reflexive
    }
}

/// The mode that a spelling names.
pub open spec fn mode_named(name: Seq<char>) -> Option<DirectMode> {
    if name == "reflexive"@ {
        Some(DirectMode::Reflexive)
    } else if name == "full"@ {
        Some(DirectMode::Full)
    } else if name == "off"@ || name == "none"@ || name == "relay"@ {
        Some(DirectMode::Off)
    } else {
        None
    }
}

impl DirectMode {
    /// The CLI spelling.
    pub open spec fn name(self) -> Seq<char> {
        match self {
            DirectMode::Reflexive => "reflexive"@,
            DirectMode::Full => "full"@,
            DirectMode::Off => "off"@,
        }
    }

    /// Lower-case name, the CLI spelling.
    pub fn as_str(self) -> (s: &'static str)
        ensures
            s@ == self.name(),
    {
        match self {
            DirectMode::Reflexive => "reflexive",
            DirectMode::Full => "full",
            DirectMode::Off => "off",
        }
    }

    /// Whether a host candidate should be gathered and advertised.
    pub fn offers_host(self) -> (v: bool)
        ensures
            v == (self == DirectMode::Full),
    {
        matches!(self, DirectMode::Full)
    }

    /// Whether to attempt a direct path at all.
    pub fn punches(self) -> (v: bool)
        ensures
            v == (self != DirectMode::Off),
    {
        !matches!(self, DirectMode::Off)
    }

    /// Read a mode's name, in any case and with white space around it.
    pub fn parse(text: &str) -> (r: Result<Self, String>)
        ensures
            match mode_named(spelling(text@)) {
                Some(m) => r == Ok::<Self, String>(m),
                None => r matches Err(e) && e@ == "unknown direct mode "@ + quoted(spelling(text@))
                    + " (reflexive|full|off)"@,
            },
    {
        let name = spelled(text);
        let n = name.as_str();
        if is_text(n, "reflexive") {
            Ok(DirectMode::Reflexive)
        } else if is_text(n, "full") {
            Ok(DirectMode::Full)
        } else if is_text(n, "off") || is_text(n, "none") || is_text(n, "relay") {
            Ok(DirectMode::Off)
        } else {
            let mut e = String::from_str("unknown direct mode ");
            e.append(quote(n).as_str());
            e.append(" (reflexive|full|off)");
            Err(e)
        }
    }
}

impl std::str::FromStr for DirectMode {
    type Err = String;

    fn from_str(s: &str) -> Result<Self, String> {
        DirectMode::parse(s)
    }
}

/// Every strategy's name reads back as that strategy.
pub proof fn lemma_strategy_name_parses(s: PunchStrategy)
    ensures
        strategy_named(spelling(s.name())) == Some(s),
{
    reveal_strlit("basic");
    reveal_strlit("predict");
    reveal_strlit("birthday");
    reveal_strlit("relay-assisted");
    let n = s.name();
    assert(trimmed(n) == n);
    assert(lowered(n) =~= n);
}

/// Every mode's name reads back as that mode.
pub proof fn lemma_mode_name_parses(m: DirectMode)
    ensures
        mode_named(spelling(m.name())) == Some(m),
{
    reveal_strlit("reflexive");
    reveal_strlit("full");
    reveal_strlit("off");
    let n = m.name();
    assert(trimmed(n) == n);
    assert(lowered(n) =~= n);
}

} // verus!
