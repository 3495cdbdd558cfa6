//! Upgrade events and the labels under which they are exported.

use vstd::prelude::*;

verus! {

/// One announced upgrade of a network.
#[derive(Debug)]
pub struct UpgradeEvent {
    pub network: String,
    pub node_version: String,
    /// The announced time, as an RFC 3339 timestamp.
    pub estimated_upgrade_time: String,
    pub block: u64,
}

/// The value of an upgrade event. Two events are the same record exactly when
/// their values are equal.
pub ghost struct EventView {
    pub network: Seq<char>,
    pub node_version: Seq<char>,
    pub estimated_upgrade_time: Seq<char>,
    pub block: u64,
}

impl View for UpgradeEvent {
    type V = EventView;

    open spec fn view(&self) -> EventView {
        EventView {
            network: self.network@,
            node_version: self.node_version@,
            estimated_upgrade_time: self.estimated_upgrade_time@,
            block: self.block,
        }
    }
}

/// The values of a list of events.
pub open spec fn event_views(events: Seq<UpgradeEvent>) -> Seq<EventView> {
    Seq::new(events.len(), |i: int| events[i]@)
}

/// The character that writes a decimal digit.
pub open spec fn digit_char(d: nat) -> char {
    if d == 0 {
        '0'
    } else if d == 1 {
        '1'
    } else if d == 2 {
        '2'
    } else if d == 3 {
        '3'
    } else if d == 4 {
        '4'
    } else if d == 5 {
        '5'
    } else if d == 6 {
        '6'
    } else if d == 7 {
        '7'
    } else if d == 8 {
        '8'
    } else {
        '9'
    }
}

/// A number in decimal, without sign or leading zeros.
pub open spec fn decimal(n: nat) -> Seq<char>
    decreases n,
{
    if n < 10 {
        seq![digit_char(n)]
    } else {
        decimal(n / 10).push(digit_char(n % 10))
    }
}

impl EventView {
    /// The label values that identify the event's series, in the order
    /// network, node version, block height. The announced time is not among
    /// them.
    pub open spec fn export_labels(self) -> Seq<Seq<char>> {
        seq![self.network, self.node_version, decimal(self.block as nat)]
    }
}

/// The text of one decimal digit.
fn digit_text(d: u64) -> (text: &'static str)
    requires
        d < 10,
    ensures
        text@ == seq![digit_char(d as nat)],
{
    proof {
        reveal_strlit("0");
        reveal_strlit("1");
        reveal_strlit("2");
        reveal_strlit("3");
        reveal_strlit("4");
        reveal_strlit("5");
        reveal_strlit("6");
        reveal_strlit("7");
        reveal_strlit("8");
        reveal_strlit("9");
    }
    let text = if d == 0 {
        "0"
    } else if d == 1 {
        "1"
    } else if d == 2 {
        "2"
    } else if d == 3 {
        "3"
    } else if d == 4 {
        "4"
    } else if d == 5 {
        "5"
    } else if d == 6 {
        "6"
    } else if d == 7 {
        "7"
    } else if d == 8 {
        "8"
    } else {
        "9"
    };
    assert(text@ =~= seq![digit_char(d as nat)]);
    text
}

/// Writes a number in decimal.
pub fn decimal_text(n: u64) -> (text: String)
    ensures
        text@ == decimal(n as nat),
    decreases n,
{
    if n < 10 {
        String::from_str(digit_text(n))
    } else {
        let mut text = decimal_text(n / 10);
        text.append(digit_text(n % 10));
        assert(text@ =~= decimal(n as nat));
        text
    }
}

impl UpgradeEvent {
    /// Whether two events are the same record: all four attributes equal.
    pub fn same_record(&self, other: &UpgradeEvent) -> (same: bool)
        ensures
            same == (self@ == other@),
    {
        self.block == other.block && self.network == other.network && self.node_version
            == other.node_version && self.estimated_upgrade_time == other.estimated_upgrade_time
    }

    /// A copy of the event.
    pub fn duplicate(&self) -> (copy: UpgradeEvent)
        ensures
            copy@ == self@,
    {
        UpgradeEvent {
            network: self.network.clone(),
            node_version: self.node_version.clone(),
            estimated_upgrade_time: self.estimated_upgrade_time.clone(),
            block: self.block,
        }
    }

    /// The label values under which the event is exported.
    pub fn export_labels(&self) -> (labels: Vec<String>)
        ensures
            crate::registry::texts(labels@) == self@.export_labels(),
    {
        let mut labels: Vec<String> = Vec::new();
        labels.push(self.network.clone());
        labels.push(self.node_version.clone());
        labels.push(decimal_text(self.block));
        assert(crate::registry::texts(labels@) =~= self@.export_labels());
        labels
    }
}

} // verus!
