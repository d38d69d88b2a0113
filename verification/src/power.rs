//! Power devices (switches, plugs, fans, toggles): their kinds and stored
//! names, the state a successful command caches, and command statuses.
use vstd::prelude::*;
use crate::text::str_eq;

verus! {

/// What kind of power device a row is.
#[derive(Clone, Copy, Debug, PartialEq, Eq, Structural)]
pub enum PowerKind {
    Switch,
    Outlet,
    Fan,
    Toggle,
    Generic,
}

pub open spec fn kind_text(kind: PowerKind) -> Seq<char> {
    match kind {
        PowerKind::Switch => "switch"@,
        PowerKind::Outlet => "outlet"@,
        PowerKind::Fan => "fan"@,
        PowerKind::Toggle => "toggle"@,
        PowerKind::Generic => "generic"@,
    }
}

/// The stored name of a kind.
pub fn kind_str(kind: PowerKind) -> (r: &'static str)
    ensures
        r@ == kind_text(kind),
{
    match kind {
        PowerKind::Switch => "switch",
        PowerKind::Outlet => "outlet",
        PowerKind::Fan => "fan",
        PowerKind::Toggle => "toggle",
        PowerKind::Generic => "generic",
    }
}

/// The kind a stored name denotes; anything unknown is generic.
pub fn parse_kind(s: &str) -> (k: PowerKind)
    ensures
        k == (if s@ == "switch"@ {
            PowerKind::Switch
        } else if s@ == "outlet"@ {
            PowerKind::Outlet
        } else if s@ == "fan"@ {
            PowerKind::Fan
        } else if s@ == "toggle"@ {
            PowerKind::Toggle
        } else {
            PowerKind::Generic
        }),
{
    if str_eq(s, "switch") {
        PowerKind::Switch
    } else if str_eq(s, "outlet") {
        PowerKind::Outlet
    } else if str_eq(s, "fan") {
        PowerKind::Fan
    } else if str_eq(s, "toggle") {
        PowerKind::Toggle
    } else {
        PowerKind::Generic
    }
}

/// Parsing the stored name of a kind gives the kind back.
pub proof fn lemma_kind_roundtrip(kind: PowerKind)
    ensures
        (if kind_text(kind) == "switch"@ {
            PowerKind::Switch
        } else if kind_text(kind) == "outlet"@ {
            PowerKind::Outlet
        } else if kind_text(kind) == "fan"@ {
            PowerKind::Fan
        } else if kind_text(kind) == "toggle"@ {
            PowerKind::Toggle
        } else {
            PowerKind::Generic
        }) == kind,
{
    reveal_strlit("switch");
    reveal_strlit("outlet");
    reveal_strlit("fan");
    reveal_strlit("toggle");
    reveal_strlit("generic");
    assert("switch"@[0] == 's' && "outlet"@[0] == 'o' && "fan"@[0] == 'f' && "toggle"@[0] == 't' && "generic"@[0] == 'g');
    match kind {
        PowerKind::Switch => {},
        PowerKind::Outlet => {
            assert("outlet"@ != "switch"@);
        },
        PowerKind::Fan => {
            assert("fan"@ != "switch"@ && "fan"@ != "outlet"@);
        },
        PowerKind::Toggle => {
            assert("toggle"@ != "switch"@ && "toggle"@ != "outlet"@ && "toggle"@ != "fan"@);
        },
        PowerKind::Generic => {
            assert("generic"@ != "switch"@ && "generic"@ != "outlet"@ && "generic"@ != "fan"@ && "generic"@ != "toggle"@);
        },
    }
}

/// A power device's cached state.
#[derive(Clone, Copy, Debug, PartialEq, Eq, Structural)]
pub struct PowerState {
    pub on: bool,
    pub reachable: Option<bool>,
}

/// The state cached after a command succeeded: the commanded power, and
/// reachable (the call just reached it).
pub fn commanded_state(on: bool) -> (s: PowerState)
    ensures
        s.on == on,
        s.reachable == Some(true),
{
    PowerState { on, reachable: Some(true) }
}

/// Outcome of driving a power device.
#[derive(Clone, Copy, Debug, PartialEq, Eq, Structural)]
pub enum SetPowerOutcome {
    Done,
    NotFound,
    ProviderError,
    Db,
}

/// The HTTP status a power command answers with.
pub fn set_power_status(outcome: SetPowerOutcome) -> (code: u16)
    ensures
        code == match outcome {
            SetPowerOutcome::Done => 204u16,
            SetPowerOutcome::NotFound => 404u16,
            SetPowerOutcome::ProviderError => 502u16,
            SetPowerOutcome::Db => 500u16,
        },
{
    match outcome {
        SetPowerOutcome::Done => 204,
        SetPowerOutcome::NotFound => 404,
        SetPowerOutcome::ProviderError => 502,
        SetPowerOutcome::Db => 500,
    }
}

} // verus!
