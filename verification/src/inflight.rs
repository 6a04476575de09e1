//! How many bytes of media may be in flight at once.
use crate::text::{decimal, decimal_spec};
use vstd::prelude::*;

verus! {

/// The bytes of a unit of the budget.
pub const UNIT_BYTES: usize = 1024;

/// How many units there are at most.
pub const MAX_UNITS: usize = usize::MAX / 8;

/// Why a reservation is refused.
#[derive(Debug, Clone, Copy, PartialEq, Eq, Structural)]
pub enum InflightRefusal {
    /// It is larger than the whole budget, so waiting would not help.
    TooLarge,
    /// The budget did not free up in time.
    Busy,
}

/// How many units bytes take up. A unit that is begun counts whole.
pub open spec fn units_of(bytes: nat) -> nat {
    (bytes + UNIT_BYTES - 1) as nat / UNIT_BYTES as nat
}

/// How many units bytes take up.
pub fn count_units(bytes: usize) -> (r: usize)
    ensures
        r == units_of(bytes as nat),
{
    let whole = bytes / UNIT_BYTES;
    if bytes % UNIT_BYTES == 0 {
        whole
    } else {
        whole + 1
    }
}

/// The budget in units: at least one, and at most as many as there can be.
pub open spec fn budget_units(budget: nat) -> nat {
    let units = units_of(budget);
    if units < 1 {
        1
    } else if units > MAX_UNITS {
        MAX_UNITS as nat
    } else {
        units
    }
}

/// What is to be reserved for bytes, or the refusal that comes at once.
pub open spec fn reservation(units: nat, bytes: nat) -> Result<u32, InflightRefusal> {
    if units_of(bytes) > units || units_of(bytes) > u32::MAX {
        Err(InflightRefusal::TooLarge)
    } else {
        Ok(units_of(bytes) as u32)
    }
}

/// What fits into the budget is never refused as too large. The number of units
/// of one reservation is bounded.
pub proof fn law_within_budget_is_not_too_large(budget: nat, bytes: nat)
    requires
        bytes <= budget <= usize::MAX,
        units_of(bytes) <= u32::MAX,
    ensures
        reservation(budget_units(budget), bytes) is Ok,
{
    assert(units_of(bytes) <= units_of(budget)) by (nonlinear_arith)
        requires
            bytes <= budget,
            units_of(bytes) == (bytes + 1023) as nat / 1024,
            units_of(budget) == (budget + 1023) as nat / 1024,
    ;
    assert(units_of(bytes) <= MAX_UNITS) by {
        assert(MAX_UNITS == usize::MAX / 8);
    }
}

/// A reservation takes up no less than its bytes, and less than a unit more.
pub proof fn law_units_cover_the_bytes(bytes: nat)
    ensures
        units_of(bytes) * UNIT_BYTES >= bytes,
        units_of(bytes) * UNIT_BYTES < bytes + UNIT_BYTES,
{
}

/// The answer to a request that is refused.
#[derive(Debug)]
pub struct RefusalAnswer {
    pub status: u16,
    pub code: String,
    pub message: String,
    /// Under which name the refusal is counted.
    pub metric: String,
}

/// The budget of bytes in flight.
pub struct MultimodalInflight {
    budget_bytes: usize,
    units: usize,
}

impl MultimodalInflight {
    /// The budget in bytes.
    pub closed spec fn budget(&self) -> usize {
        self.budget_bytes
    }

    /// The budget in units.
    pub closed spec fn total_units(&self) -> usize {
        self.units
    }

    /// The units are those of the bytes.
    pub closed spec fn wf(&self) -> bool {
        self.units == budget_units(self.budget_bytes as nat)
    }

    /// A budget of bytes.
    pub fn new(budget_bytes: usize) -> (r: Self)
        ensures
            r.wf(),
            r.budget() == budget_bytes,
            r.total_units() == budget_units(budget_bytes as nat),
    {
        let wanted = count_units(budget_bytes);
        let units: usize = if wanted < 1 {
            1
        } else if wanted > MAX_UNITS {
            MAX_UNITS
        } else {
            wanted
        };
        MultimodalInflight { budget_bytes, units }
    }

    /// The budget in bytes.
    pub fn budget_bytes(&self) -> (r: usize)
        ensures
            r == self.budget(),
    {
        self.budget_bytes
    }

    /// How many units there are to be had.
    pub fn units(&self) -> (r: usize)
        ensures
            r == self.total_units(),
    {
        self.units
    }

    /// How many units to reserve for bytes. See [`reservation`].
    pub fn reserve(&self, bytes: usize) -> (r: Result<u32, InflightRefusal>)
        ensures
            r == reservation(self.total_units() as nat, bytes as nat),
    {
        let units = count_units(bytes);
        if units > self.units || units as u64 > u32::MAX as u64 {
            return Err(InflightRefusal::TooLarge);
        }
        Ok(units as u32)
    }

    /// The answer to a request that is refused.
    pub fn refusal(&self, bytes: usize, why: InflightRefusal) -> (r: RefusalAnswer)
        ensures
            match why {
                InflightRefusal::TooLarge => {
                    &&& r.status == 413
                    &&& r.code@ == "multimodal_payload_too_large"@
                    &&& r.message@ == "the request carries "@ + decimal_spec(bytes as nat)
                        + " bytes of preprocessed media, more than the "@ + decimal_spec(
                        self.budget() as nat,
                    ) + " bytes this gateway holds in flight"@
                    &&& r.metric@ == "multimodal_too_large"@
                },
                InflightRefusal::Busy => {
                    &&& r.status == 429
                    &&& r.code@ == "multimodal_inflight_budget"@
                    &&& r.message@
                        == "the gateway is already holding its budget of preprocessed media in flight; retry shortly"@
                    &&& r.metric@ == "multimodal_inflight"@
                },
            },
    {
        match why {
            InflightRefusal::TooLarge => {
                let mut message = "the request carries ".to_owned();
                message.append(decimal(bytes as u64).as_str());
                message.append(" bytes of preprocessed media, more than the ");
                message.append(decimal(self.budget_bytes as u64).as_str());
                message.append(" bytes this gateway holds in flight");
                RefusalAnswer {
                    status: 413,
                    code: "multimodal_payload_too_large".to_owned(),
                    message,
                    metric: "multimodal_too_large".to_owned(),
                }
            },
            InflightRefusal::Busy => RefusalAnswer {
                status: 429,
                code: "multimodal_inflight_budget".to_owned(),
                message:
                    "the gateway is already holding its budget of preprocessed media in flight; retry shortly".to_owned(),
                metric: "multimodal_inflight".to_owned(),
            },
        }
    }
}

} // verus!
