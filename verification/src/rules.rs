//! The rules of a repair: which items are left alone, and which groups of
//! items are numbered. They are data, so that they can grow without a
//! change to the passes that apply them.

use crate::text::texts;
use vstd::prelude::*;
use vstd::string::{StrSliceExecFns, StringSliceAdditionalSpecFns};

verus! {

/// A group of items that the game numbers: all records whose tag begins with
/// `tagname`. The game keeps the highest number it has given out in the
/// record tagged `tagid`.
#[derive(Debug, Clone, PartialEq, Eq)]
pub struct Group {
    /// The prefix that the tags of the group's records share.
    pub tagname: Vec<u8>,
    /// The tag of the record that holds the group's highest number.
    pub tagid: Vec<u8>,
    /// Whether the game begins with an item of the group, numbered zero.
    pub has_default_zero_item: bool,
    /// The number that the next item of the group is given.
    pub count: usize,
    /// The highest number of the group.
    pub max: usize,
}

/// What a group holds.
pub struct GroupView {
    pub tagname: Seq<u8>,
    pub tagid: Seq<u8>,
    pub has_default_zero_item: bool,
    pub count: nat,
    pub max: nat,
}

impl View for Group {
    type V = GroupView;

    open spec fn view(&self) -> GroupView {
        GroupView {
            tagname: self.tagname@,
            tagid: self.tagid@,
            has_default_zero_item: self.has_default_zero_item,
            count: self.count as nat,
            max: self.max as nat,
        }
    }
}

impl DeepView for Group {
    type V = GroupView;

    open spec fn deep_view(&self) -> GroupView {
        self@
    }
}

/// The rules of a repair.
#[derive(Debug, Clone, PartialEq, Eq)]
pub struct Rules {
    /// The identities of the items that are never removed, and the tags of
    /// the records that are never renumbered.
    pub allowlist: Vec<Vec<u8>>,
    /// The beginnings of the tags of the items that can be mounted on the
    /// car, the house or the radio: other files refer to them by number, so
    /// they are neither removed nor renumbered.
    pub blocklist: Vec<Vec<u8>>,
    /// The groups that are numbered.
    pub groups: Vec<Group>,
}

/// What the rules hold.
pub struct RulesView {
    pub allowlist: Seq<Seq<u8>>,
    pub blocklist: Seq<Seq<u8>>,
    pub groups: Seq<GroupView>,
}

impl View for Rules {
    type V = RulesView;

    open spec fn view(&self) -> RulesView {
        RulesView {
            allowlist: texts(self.allowlist@),
            blocklist: texts(self.blocklist@),
            groups: self.groups.deep_view(),
        }
    }
}

/// A group that has counted nothing yet.
pub open spec fn group(tagname: &str, tagid: &str, has_default_zero_item: bool) -> GroupView {
    GroupView {
        tagname: tagname.spec_bytes(),
        tagid: tagid.spec_bytes(),
        has_default_zero_item,
        count: 0,
        max: 0,
    }
}

/// The records of a fresh game, which the game treats in ways of its own.
pub open spec fn standard_allowlist() -> Seq<Seq<u8>> {
    seq![
        "milkxTransform".spec_bytes(),
        "milkxCondition".spec_bytes(),
        "sausagesx0".spec_bytes(),
        "pizzaxTransform".spec_bytes(),
        "pizzaxCondition".spec_bytes(),
        "beercase0".spec_bytes(),
        "macaron boxxTransform".spec_bytes(),
        "macaron boxxCondition".spec_bytes(),
        "oilfilter0".spec_bytes(),
    ]
}

/// The items that can end up in the landfill and yet be mounted somewhere.
pub open spec fn standard_blocklist() -> Seq<Seq<u8>> {
    seq![
        "fireextinguisher".spec_bytes(),
        "n2obottle".spec_bytes(),
        "battery".spec_bytes(),
        "oil filter,".spec_bytes(),
        "spark plug".spec_bytes(),
        "alternator belt".spec_bytes(),
        "light bulb".spec_bytes(),
        "fuse".spec_bytes(),
        "r20 battery".spec_bytes(),
    ]
}

/// How many groups of items the game numbers.
pub const STANDARD_GROUPS: usize = 38;

/// How many of them stand in the table before the groups of spraycans.
pub const PLAIN_GROUPS: usize = 25;

/// The group of items that stands at `h` in the table of the groups that
/// the game numbers. The groups of spraycans, one for each colour, stand at
/// the end.
pub open spec fn standard_group(h: int) -> GroupView {
    if h == 0 {
        group("beercase", "BeerCaseID", true)
    } else if h == 1 {
        group("sausagesx", "SausagesxID", true)
    } else if h == 2 {
        group("milkx", "milkxID", true)
    } else if h == 3 {
        group("sugar", "sugarID", false)
    } else if h == 4 {
        group("yeast", "yeastID", false)
    } else if h == 5 {
        group("potatochips", "potatochipsID", false)
    } else if h == 6 {
        group("pizzax", "pizzaxID", true)
    } else if h == 7 {
        group("macaronbox", "macaronboxxID", false)
    } else if h == 8 {
        group("shoppingbagx", "shoppingbagxID", false)
    } else if h == 9 {
        group("moosemeatx", "moosemeatxID", false)
    } else if h == 10 {
        group("Booze", "BoozeID", false)
    } else if h == 11 {
        group("pikex", "pikexID", false)
    } else if h == 12 {
        group("juiceconcentrate", "juiceconcentrateID", false)
    } else if h == 13 {
        group("motoroil", "motoroilID", false)
    } else if h == 14 {
        group("brakefluid", "brakefluidID", false)
    } else if h == 15 {
        group("coolant", "coolantID", false)
    } else if h == 16 {
        group("twostroke", "twostrokeID", false)
    } else if h == 17 {
        group("cigarettes", "cigarettesID", false)
    } else if h == 18 {
        group("spark plug box", "sparkplugboxID", false)
    } else if h == 19 {
        group("groundcoffee", "groundcoffeeID", false)
    } else if h == 20 {
        group("grillcharcoal", "grillcharcoalID", false)
    } else if h == 21 {
        group("light bulb box", "lightbulbboxID", false)
    } else if h == 22 {
        group("fuse package", "fusepackageID", false)
    } else if h == 23 {
        group("r20 battery box", "r20batteryboxID", false)
    } else if h == 24 {
        group("mosquitospray", "mosquitosprayID", false)
    } else if h == 25 {
        group("spraycan01", "Spraycan01ID", false)
    } else if h == 26 {
        group("spraycan02", "Spraycan02ID", false)
    } else if h == 27 {
        group("spraycan03", "Spraycan03ID", false)
    } else if h == 28 {
        group("spraycan04", "Spraycan04ID", false)
    } else if h == 29 {
        group("spraycan05", "Spraycan05ID", false)
    } else if h == 30 {
        group("spraycan06", "Spraycan06ID", false)
    } else if h == 31 {
        group("spraycan07", "Spraycan07ID", false)
    } else if h == 32 {
        group("spraycan08", "Spraycan08ID", false)
    } else if h == 33 {
        group("spraycan09", "Spraycan09ID", false)
    } else if h == 34 {
        group("spraycan10", "Spraycan10ID", false)
    } else if h == 35 {
        group("spraycan11", "Spraycan11ID", false)
    } else if h == 36 {
        group("spraycan12", "Spraycan12ID", false)
    } else {
        group("spraycan13", "Spraycan13ID", false)
    }
}

/// The groups of items that the game numbers.
pub open spec fn standard_groups() -> Seq<GroupView> {
    Seq::new(STANDARD_GROUPS as nat, |h: int| standard_group(h))
}

/// The rules that the repair of a save file goes by.
pub open spec fn standard_rules() -> RulesView {
    RulesView {
        allowlist: standard_allowlist(),
        blocklist: standard_blocklist(),
        groups: standard_groups(),
    }
}

impl Group {
    /// A group that has counted nothing yet.
    pub fn new(tagname: &str, tagid: &str, has_default_zero_item: bool) -> (g: Group)
        ensures
            g@ == group(tagname, tagid, has_default_zero_item),
    {
        Group {
            tagname: tagname.as_bytes_vec(),
            tagid: tagid.as_bytes_vec(),
            has_default_zero_item,
            count: 0,
            max: 0,
        }
    }
}

/// The allowlist of the standard rules.
fn standard_allowlist_entries() -> (list: Vec<Vec<u8>>)
    ensures
        texts(list@) == standard_allowlist(),
{
    let mut list: Vec<Vec<u8>> = Vec::new();
    list.push("milkxTransform".as_bytes_vec());
    list.push("milkxCondition".as_bytes_vec());
    list.push("sausagesx0".as_bytes_vec());
    list.push("pizzaxTransform".as_bytes_vec());
    list.push("pizzaxCondition".as_bytes_vec());
    list.push("beercase0".as_bytes_vec());
    list.push("macaron boxxTransform".as_bytes_vec());
    list.push("macaron boxxCondition".as_bytes_vec());
    list.push("oilfilter0".as_bytes_vec());
    assert(texts(list@) =~= standard_allowlist());
    list
}

/// The blocklist of the standard rules.
fn standard_blocklist_entries() -> (list: Vec<Vec<u8>>)
    ensures
        texts(list@) == standard_blocklist(),
{
    let mut list: Vec<Vec<u8>> = Vec::new();
    list.push("fireextinguisher".as_bytes_vec());
    list.push("n2obottle".as_bytes_vec());
    list.push("battery".as_bytes_vec());
    list.push("oil filter,".as_bytes_vec());
    list.push("spark plug".as_bytes_vec());
    list.push("alternator belt".as_bytes_vec());
    list.push("light bulb".as_bytes_vec());
    list.push("fuse".as_bytes_vec());
    list.push("r20 battery".as_bytes_vec());
    assert(texts(list@) =~= standard_blocklist());
    list
}

/// The groups of the standard rules.
fn standard_group_entries() -> (groups: Vec<Group>)
    ensures
        groups.deep_view() == standard_groups(),
{
    let mut groups: Vec<Group> = Vec::new();
    groups.push(Group::new("beercase", "BeerCaseID", true));
    groups.push(Group::new("sausagesx", "SausagesxID", true));
    groups.push(Group::new("milkx", "milkxID", true));
    groups.push(Group::new("sugar", "sugarID", false));
    groups.push(Group::new("yeast", "yeastID", false));
    groups.push(Group::new("potatochips", "potatochipsID", false));
    groups.push(Group::new("pizzax", "pizzaxID", true));
    groups.push(Group::new("macaronbox", "macaronboxxID", false));
    groups.push(Group::new("shoppingbagx", "shoppingbagxID", false));
    groups.push(Group::new("moosemeatx", "moosemeatxID", false));
    groups.push(Group::new("Booze", "BoozeID", false));
    groups.push(Group::new("pikex", "pikexID", false));
    groups.push(Group::new("juiceconcentrate", "juiceconcentrateID", false));
    groups.push(Group::new("motoroil", "motoroilID", false));
    groups.push(Group::new("brakefluid", "brakefluidID", false));
    groups.push(Group::new("coolant", "coolantID", false));
    groups.push(Group::new("twostroke", "twostrokeID", false));
    groups.push(Group::new("cigarettes", "cigarettesID", false));
    groups.push(Group::new("spark plug box", "sparkplugboxID", false));
    groups.push(Group::new("groundcoffee", "groundcoffeeID", false));
    groups.push(Group::new("grillcharcoal", "grillcharcoalID", false));
    groups.push(Group::new("light bulb box", "lightbulbboxID", false));
    groups.push(Group::new("fuse package", "fusepackageID", false));
    groups.push(Group::new("r20 battery box", "r20batteryboxID", false));
    groups.push(Group::new("mosquitospray", "mosquitosprayID", false));
    groups.push(Group::new("spraycan01", "Spraycan01ID", false));
    groups.push(Group::new("spraycan02", "Spraycan02ID", false));
    groups.push(Group::new("spraycan03", "Spraycan03ID", false));
    groups.push(Group::new("spraycan04", "Spraycan04ID", false));
    groups.push(Group::new("spraycan05", "Spraycan05ID", false));
    groups.push(Group::new("spraycan06", "Spraycan06ID", false));
    groups.push(Group::new("spraycan07", "Spraycan07ID", false));
    groups.push(Group::new("spraycan08", "Spraycan08ID", false));
    groups.push(Group::new("spraycan09", "Spraycan09ID", false));
    groups.push(Group::new("spraycan10", "Spraycan10ID", false));
    groups.push(Group::new("spraycan11", "Spraycan11ID", false));
    groups.push(Group::new("spraycan12", "Spraycan12ID", false));
    groups.push(Group::new("spraycan13", "Spraycan13ID", false));
    assert(groups.deep_view() =~= standard_groups());
    groups
}

impl Rules {
    /// The rules that the repair of a save file goes by.
    pub fn standard() -> (rules: Rules)
        ensures
            rules@ == standard_rules(),
    {
        Rules {
            allowlist: standard_allowlist_entries(),
            blocklist: standard_blocklist_entries(),
            groups: standard_group_entries(),
        }
    }
}

} // verus!
