//! The capture as a module of the daemon.

use vstd::prelude::*;

use crate::env;
use crate::text;
use crate::wg;

use super::capture::{SniffConfig, DEFAULT_FILTER};

verus! {

/// The passive capture of the traffic of the tunnel.
#[derive(Debug)]
pub struct Sniffer {
    /// The device, where it is imposed.
    pub device: Option<String>,
    /// The WireGuard interface whose device is found otherwise.
    pub interface: String,
    /// The BPF filter.
    pub filter: String,
}

/// The variables that the settings are read of, as the environment has them.
#[derive(Debug, Clone)]
pub struct SnifferVars {
    /// `PERSES_DEVICE`.
    pub device: Option<String>,
    /// `PERSES_INTERFACE`.
    pub interface: Option<String>,
    /// `PERSES_BPF_FILTER`.
    pub filter: Option<String>,
}

/// What is said of an interface that is down.
pub open spec fn down_text(interface: Seq<char>) -> Seq<char> {
    "interface "@ + interface + " arrêtée — la monter, ou imposer PERSES_DEVICE"@
}

impl Sniffer {
    /// Reads the environment. Nothing is looked up and nothing is opened yet.
    pub fn from_env(vars: &SnifferVars) -> (r: Self)
        ensures
            text::option_view(r.device) == env::present(text::option_view(vars.device)),
            r.interface@ == env::or_usual(
                env::present(text::option_view(vars.interface)),
                wg::DEFAULT_INTERFACE@,
            ),
            r.filter@ == env::or_usual(
                env::present(text::option_view(vars.filter)),
                DEFAULT_FILTER@,
            ),
    {
        Sniffer {
            device: env::read_present(&vars.device),
            interface: env::or_else(env::read_present(&vars.interface), wg::DEFAULT_INTERFACE),
            filter: env::or_else(env::read_present(&vars.filter), DEFAULT_FILTER),
        }
    }

    /// The interface whose device has to be found, `None` where the device is
    /// imposed.
    pub fn asks_for(&self) -> (r: Option<String>)
        ensures
            text::option_view(r) == (if self.device is Some {
                None
            } else {
                Some(self.interface@)
            }),
    {
        match &self.device {
            Some(_) => None,
            None => Some(text::copy(self.interface.as_str())),
        }
    }

    /// The device to capture on: the one imposed, or the one found for the
    /// interface.
    pub fn device(&self, found: Option<String>) -> (r: Result<String, String>)
        ensures
            match self.device {
                Some(imposed) => r matches Ok(device) && device@ == imposed@,
                None => match found {
                    Some(resolved) => r matches Ok(device) && device@ == resolved@,
                    None => r matches Err(said) && said@ == down_text(self.interface@),
                },
            },
    {
        if let Some(device) = &self.device {
            return Ok(text::copy(device.as_str()));
        }
        match found {
            Some(device) => Ok(device),
            None => {
                let mut said = text::copy("interface ");
                said.append(self.interface.as_str());
                said.append(" arrêtée — la monter, ou imposer PERSES_DEVICE");
                Err(said)
            },
        }
    }

    /// What to capture on a device.
    pub fn config(&self, device: String) -> (r: SniffConfig)
        ensures
            r.device@ == device@,
            r.filter@ == self.filter@,
    {
        SniffConfig { device, filter: text::copy(self.filter.as_str()) }
    }
}

// ---------------------------------------------------------------------------
// Laws
// ---------------------------------------------------------------------------

/// What is said of an interface that is down names it.
pub proof fn law_message_names_the_interface(interface: Seq<char>)
    ensures
        text::occurs(interface, down_text(interface)),
{
    text::lemma_occurs(
        "interface "@,
        interface,
        " arrêtée — la monter, ou imposer PERSES_DEVICE"@,
    );
}

} // verus!
