//! Network interfaces.

use vstd::prelude::*;

use crate::packet::NetdumpError;
use crate::text::{decimal, push_decimal, push_text};

verus! {

/// The interface is up.
pub const IFF_UP: u32 = 0x1;

/// The interface is a loopback interface.
pub const IFF_LOOPBACK: u32 = 0x8;

/// An entry of the system's list of interface addresses.
#[derive(Debug, Clone)]
pub struct InterfaceEntry {
    pub name: String,
    pub ifindex: i32,
    pub flags: u32,
}

/// Network interface information.
#[derive(Debug, Clone)]
pub struct InterfaceInfo {
    pub name: String,
    pub ifindex: i32,
    pub is_up: bool,
}

/// An interface as a mathematical value.
pub struct Interface {
    pub name: Seq<char>,
    pub ifindex: i32,
    pub is_up: bool,
}

impl View for InterfaceInfo {
    type V = Interface;

    open spec fn view(&self) -> Interface {
        Interface { name: self.name@, ifindex: self.ifindex, is_up: self.is_up }
    }
}

impl InterfaceEntry {
    /// The interface that the entry belongs to. A loopback interface does not count as up.
    pub open spec fn interface(&self) -> Interface {
        Interface {
            name: self.name@,
            ifindex: self.ifindex,
            is_up: self.flags & IFF_UP != 0 && self.flags & IFF_LOOPBACK == 0,
        }
    }
}

/// The interfaces of a list.
pub open spec fn views(list: Seq<InterfaceInfo>) -> Seq<Interface> {
    Seq::new(list.len(), |i: int| list[i]@)
}

/// Whether an interface of the name is in the list.
pub open spec fn is_listed(list: Seq<Interface>, name: Seq<char>) -> bool {
    exists|i: int| 0 <= i < list.len() && (#[trigger] list[i]).name == name
}

/// The interfaces of the entries, each at its first entry.
pub open spec fn distinct(entries: Seq<InterfaceEntry>) -> Seq<Interface>
    decreases entries.len(),
{
    if entries.len() == 0 {
        Seq::<Interface>::empty()
    } else {
        let before = distinct(entries.drop_last());
        let last = entries.last().interface();
        if is_listed(before, last.name) {
            before
        } else {
            before.push(last)
        }
    }
}

/// The list with the interface behind all that have no greater index.
pub open spec fn with_inserted(list: Seq<Interface>, new: Interface) -> Seq<Interface>
    decreases list.len(),
{
    if list.len() == 0 || list.last().ifindex <= new.ifindex {
        list.push(new)
    } else {
        with_inserted(list.drop_last(), new).push(list.last())
    }
}

/// The interfaces in the order of their indices; those of the same index stay in their order.
pub open spec fn by_index(list: Seq<Interface>) -> Seq<Interface>
    decreases list.len(),
{
    if list.len() == 0 {
        list
    } else {
        with_inserted(by_index(list.drop_last()), list.last())
    }
}

/// The table of interfaces.
pub open spec fn table(entries: Seq<InterfaceEntry>) -> Seq<Interface> {
    by_index(distinct(entries))
}

/// Whether the indices grow.
pub open spec fn is_sorted(list: Seq<Interface>) -> bool {
    forall|i: int, j: int|
        0 <= i <= j < list.len() ==> (#[trigger] list[i]).ifindex <= (#[trigger] list[j]).ifindex
}

/// Whether no name occurs twice.
pub open spec fn has_unique_names(list: Seq<Interface>) -> bool {
    forall|i: int, j: int|
        0 <= i < j < list.len() ==> (#[trigger] list[i]).name != (#[trigger] list[j]).name
}

fn is_known(list: &Vec<InterfaceInfo>, name: &String) -> (yes: bool)
    ensures
        yes == is_listed(views(list@), name@),
{
    let mut i: usize = 0;
    while i < list.len()
        invariant
            0 <= i <= list@.len(),
            forall|j: int| 0 <= j < i ==> (#[trigger] list@[j]).name@ != name@,
        decreases list@.len() - i,
    {
        if list[i].name == *name {
            assert(views(list@)[i as int].name == name@);
            return true;
        }
        i = i + 1;
    }
    assert forall|j: int| 0 <= j < views(list@).len() implies (#[trigger] views(list@)[j]).name
        != name@ by {
        assert(list@[j].name@ != name@);
    }
    false
}

/// The list with one element put in.
proof fn lemma_inserted(list: Seq<Interface>, new: Interface, at: int)
    requires
        0 <= at <= list.len(),
        at > 0 ==> list[at - 1].ifindex <= new.ifindex,
        forall|j: int| at <= j < list.len() ==> (#[trigger] list[j]).ifindex > new.ifindex,
    ensures
        with_inserted(list, new) == list.insert(at, new),
    decreases list.len(),
{
    if at < list.len() {
        let rest = list.drop_last();
        lemma_inserted(rest, new, at);
        assert(rest.insert(at, new).push(list.last()) =~= list.insert(at, new));
    } else {
        assert(list.push(new) =~= list.insert(at, new));
    }
}

fn insert_by_index(list: &mut Vec<InterfaceInfo>, new: InterfaceInfo)
    ensures
        views(final(list)@) == with_inserted(views(old(list)@), new@),
{
    let mut at: usize = list.len();
    while at > 0 && list[at - 1].ifindex > new.ifindex
        invariant
            *list == *old(list),
            0 <= at <= list@.len(),
            forall|j: int| at <= j < list@.len() ==> (#[trigger] list@[j]).ifindex > new.ifindex,
        decreases at,
    {
        at = at - 1;
    }
    proof {
        let before = views(old(list)@);
        assert forall|j: int| at <= j < before.len() implies (#[trigger] before[j]).ifindex
            > new.ifindex by {
            assert(list@[j].ifindex > new.ifindex);
        }
        lemma_inserted(before, new@, at as int);
        assert(views(list@.insert(at as int, new)) =~= before.insert(at as int, new@));
    }
    list.insert(at, new);
}

/// Build the table of interfaces from the system's list of addresses: one interface for each
/// name, in the order of their indices.
pub fn interface_table(entries: Vec<InterfaceEntry>) -> (found: Vec<InterfaceInfo>)
    ensures
        views(found@) == table(entries@),
{
    let mut known: Vec<InterfaceInfo> = Vec::new();
    let mut sorted: Vec<InterfaceInfo> = Vec::new();
    let mut i: usize = 0;
    assert(entries@.take(0) =~= Seq::<InterfaceEntry>::empty());
    assert(views(known@) =~= Seq::<Interface>::empty());
    assert(views(sorted@) =~= Seq::<Interface>::empty());
    while i < entries.len()
        invariant
            0 <= i <= entries@.len(),
            views(known@) == distinct(entries@.take(i as int)),
            views(sorted@) == by_index(views(known@)),
        decreases entries@.len() - i,
    {
        let entry: &InterfaceEntry = &entries[i];
        assert(entries@.take(i + 1).drop_last() =~= entries@.take(i as int));
        assert(entries@.take(i + 1).last() == *entry);
        if !is_known(&known, &entry.name) {
            let is_up: bool = entry.flags & IFF_UP != 0 && entry.flags & IFF_LOOPBACK == 0;
            let ghost before = views(known@);
            known.push(
                InterfaceInfo { name: entry.name.clone(), ifindex: entry.ifindex, is_up },
            );
            assert(views(known@) =~= before.push(entry.interface()));
            assert(views(known@).drop_last() =~= before);
            insert_by_index(
                &mut sorted,
                InterfaceInfo { name: entry.name.clone(), ifindex: entry.ifindex, is_up },
            );
        }
        i = i + 1;
    }
    assert(entries@.take(i as int) =~= entries@);
    sorted
}

/// The table is in the order of the indices, has every name once, and holds the interfaces of
/// the entries, no more and no less.
pub proof fn law_interface_table(entries: Seq<InterfaceEntry>)
    ensures
        is_sorted(table(entries)),
        has_unique_names(table(entries)),
        table(entries).to_multiset() == distinct(entries).to_multiset(),
        forall|i: int|
            0 <= i < entries.len() ==> is_listed(
                distinct(entries),
                (#[trigger] entries[i]).name@,
            ),
{
    lemma_distinct(entries);
    lemma_by_index(distinct(entries));
}

proof fn lemma_distinct(entries: Seq<InterfaceEntry>)
    ensures
        has_unique_names(distinct(entries)),
        forall|i: int|
            0 <= i < entries.len() ==> is_listed(
                distinct(entries),
                (#[trigger] entries[i]).name@,
            ),
    decreases entries.len(),
{
    if entries.len() > 0 {
        let rest = entries.drop_last();
        let before = distinct(rest);
        let last = entries.last().interface();
        lemma_distinct(rest);
        assert forall|i: int| 0 <= i < entries.len() implies is_listed(
            distinct(entries),
            (#[trigger] entries[i]).name@,
        ) by {
            if i < rest.len() {
                assert(rest[i] == entries[i]);
                let k = choose|k: int|
                    0 <= k < before.len() && (#[trigger] before[k]).name == rest[i].name@;
                assert(distinct(entries)[k] == before[k]);
            } else if !is_listed(before, last.name) {
                assert(distinct(entries)[before.len() as int] == last);
            }
        }
    }
}

proof fn lemma_inserted_keeps(list: Seq<Interface>, new: Interface)
    requires
        is_sorted(list),
        has_unique_names(list),
        !is_listed(list, new.name),
    ensures
        is_sorted(with_inserted(list, new)),
        has_unique_names(with_inserted(list, new)),
        with_inserted(list, new).to_multiset() == list.push(new).to_multiset(),
        forall|name: Seq<char>| #[trigger]
            is_listed(with_inserted(list, new), name) == (is_listed(list, name) || name
                == new.name),
        forall|i: int|
            0 <= i < with_inserted(list, new).len() ==> (#[trigger] with_inserted(list, new)[i])
                == new || list.contains(with_inserted(list, new)[i]),
    decreases list.len(),
{
    broadcast use vstd::seq_lib::group_to_multiset_ensures;

    let result = with_inserted(list, new);
    if list.len() == 0 || list.last().ifindex <= new.ifindex {
        assert forall|i: int, j: int| 0 <= i <= j < result.len() implies (
        #[trigger] result[i]).ifindex <= (#[trigger] result[j]).ifindex by {
            if j == list.len() && i < list.len() {
                assert(list[i].ifindex <= list[list.len() - 1].ifindex);
            }
        }
        assert forall|i: int, j: int| 0 <= i < j < result.len() implies (#[trigger] result[i]).name
            != (#[trigger] result[j]).name by {
            if j == list.len() {
                assert(list[i].name != new.name);
            }
        }
        assert forall|name: Seq<char>| #[trigger]
            is_listed(result, name) == (is_listed(list, name) || name == new.name) by {
            if is_listed(list, name) {
                let k = choose|k: int| 0 <= k < list.len() && (#[trigger] list[k]).name == name;
                assert(result[k].name == name);
            }
            if name == new.name {
                assert(result[list.len() as int].name == name);
            }
            if is_listed(result, name) {
                let k = choose|k: int|
                    0 <= k < result.len() && (#[trigger] result[k]).name == name;
                if k < list.len() {
                    assert(list[k].name == name);
                }
            }
        }
        assert forall|i: int| 0 <= i < result.len() implies (#[trigger] result[i]) == new
            || list.contains(result[i]) by {
            if i < list.len() {
                assert(list[i] == result[i]);
            }
        }
    } else {
        let rest = list.drop_last();
        let inner = with_inserted(rest, new);
        let last = list.last();
        assert(is_sorted(rest));
        assert(has_unique_names(rest));
        assert(!is_listed(rest, new.name)) by {
            if is_listed(rest, new.name) {
                let k = choose|k: int| 0 <= k < rest.len() && (#[trigger] rest[k]).name == new.name;
                assert(list[k].name == new.name);
            }
        }
        lemma_inserted_keeps(rest, new);
        assert forall|i: int, j: int| 0 <= i <= j < result.len() implies (
        #[trigger] result[i]).ifindex <= (#[trigger] result[j]).ifindex by {
            if j == inner.len() && i < inner.len() {
                if inner[i] != new {
                    let k = choose|k: int| 0 <= k < rest.len() && rest[k] == inner[i];
                    assert(list[k].ifindex <= list[list.len() - 1].ifindex);
                }
            }
        }
        assert forall|i: int, j: int| 0 <= i < j < result.len() implies (#[trigger] result[i]).name
            != (#[trigger] result[j]).name by {
            if j == inner.len() {
                assert(list[list.len() - 1].name != new.name);
                if inner[i] != new {
                    let k = choose|k: int| 0 <= k < rest.len() && rest[k] == inner[i];
                    assert(list[k].name != list[list.len() - 1].name);
                }
            }
        }
        assert forall|name: Seq<char>| #[trigger]
            is_listed(result, name) == (is_listed(list, name) || name == new.name) by {
            assert(is_listed(inner, name) == (is_listed(rest, name) || name == new.name));
            if is_listed(list, name) {
                let k = choose|k: int| 0 <= k < list.len() && (#[trigger] list[k]).name == name;
                if k < rest.len() {
                    assert(rest[k].name == name);
                    let n = choose|n: int| 0 <= n < inner.len() && (#[trigger] inner[n]).name == name;
                    assert(result[n].name == name);
                } else {
                    assert(result[inner.len() as int].name == name);
                }
            }
            if name == new.name {
                let n = choose|n: int| 0 <= n < inner.len() && (#[trigger] inner[n]).name == name;
                assert(result[n].name == name);
            }
            if is_listed(result, name) {
                let n = choose|n: int|
                    0 <= n < result.len() && (#[trigger] result[n]).name == name;
                if n < inner.len() {
                    assert(inner[n].name == name);
                    if is_listed(rest, name) {
                        let k = choose|k: int|
                            0 <= k < rest.len() && (#[trigger] rest[k]).name == name;
                        assert(list[k].name == name);
                    }
                } else {
                    assert(list[list.len() - 1].name == name);
                }
            }
        }
        assert forall|i: int| 0 <= i < result.len() implies (#[trigger] result[i]) == new
            || list.contains(result[i]) by {
            if i < inner.len() {
                if inner[i] != new {
                    let k = choose|k: int| 0 <= k < rest.len() && rest[k] == inner[i];
                    assert(list[k] == result[i]);
                }
            } else {
                assert(list[list.len() - 1] == result[i]);
            }
        }
        assert(list.to_multiset() == rest.to_multiset().insert(last)) by {
            assert(list =~= rest.push(last));
        }
        assert(result.to_multiset() =~= list.push(new).to_multiset());
    }
}

proof fn lemma_by_index(list: Seq<Interface>)
    requires
        has_unique_names(list),
    ensures
        is_sorted(by_index(list)),
        has_unique_names(by_index(list)),
        by_index(list).to_multiset() == list.to_multiset(),
        forall|name: Seq<char>| #[trigger]
            is_listed(by_index(list), name) == is_listed(list, name),
    decreases list.len(),
{
    broadcast use vstd::seq_lib::group_to_multiset_ensures;

    if list.len() > 0 {
        let rest = list.drop_last();
        let last = list.last();
        assert(has_unique_names(rest));
        lemma_by_index(rest);
        assert(!is_listed(rest, last.name)) by {
            if is_listed(rest, last.name) {
                let k = choose|k: int|
                    0 <= k < rest.len() && (#[trigger] rest[k]).name == last.name;
                assert(list[k].name == list[list.len() - 1].name);
            }
        }
        assert(!is_listed(by_index(rest), last.name));
        lemma_inserted_keeps(by_index(rest), last);
        assert(list =~= rest.push(last));
        assert(by_index(list).to_multiset() =~= list.to_multiset());
        assert forall|name: Seq<char>| #[trigger]
            is_listed(by_index(list), name) == is_listed(list, name) by {
            assert(is_listed(by_index(rest), name) == is_listed(rest, name));
            if is_listed(list, name) {
                let k = choose|k: int| 0 <= k < list.len() && (#[trigger] list[k]).name == name;
                if k < rest.len() {
                    assert(rest[k].name == name);
                }
            }
            if is_listed(rest, name) {
                let k = choose|k: int| 0 <= k < rest.len() && (#[trigger] rest[k]).name == name;
                assert(list[k].name == name);
            }
            if name == last.name {
                assert(list[list.len() - 1].name == name);
            }
        }
    }
}

/// Whether the first interface of the list that is up stands at index `i`.
pub open spec fn is_first_up(list: Seq<Interface>, i: int) -> bool {
    &&& 0 <= i < list.len()
    &&& list[i].is_up
    &&& forall|j: int| 0 <= j < i ==> !(#[trigger] list[j]).is_up
}

/// Whether no interface of the list is up.
pub open spec fn none_up(list: Seq<Interface>) -> bool {
    forall|j: int| 0 <= j < list.len() ==> !(#[trigger] list[j]).is_up
}

/// Select a default interface: the first one of the list that is UP and non-loopback.
pub fn default_interface(list: &[InterfaceInfo]) -> (name: Result<String, NetdumpError>)
    ensures
        match name {
            Ok(name) => exists|i: int| #[trigger]
                is_first_up(views(list@), i) && name@ == list@[i].name@,
            Err(error) => none_up(views(list@)) && error.text() == "io error: "@
                + "no suitable interface found"@,
        },
{
    let mut i: usize = 0;
    while i < list.len()
        invariant
            0 <= i <= list@.len(),
            forall|j: int| 0 <= j < i ==> !(#[trigger] views(list@)[j]).is_up,
        decreases list@.len() - i,
    {
        if list[i].is_up {
            assert(views(list@)[i as int].is_up);
            assert(is_first_up(views(list@), i as int));
            return Ok(list[i].name.clone());
        }
        i = i + 1;
    }
    Err(NetdumpError::Io("no suitable interface found".to_owned()))
}

/// In a sorted table the default interface has the lowest index of those that are up.
pub proof fn law_default_is_lowest(list: Seq<Interface>, i: int)
    requires
        is_sorted(list),
        is_first_up(list, i),
    ensures
        forall|j: int|
            0 <= j < list.len() && (#[trigger] list[j]).is_up ==> list[i].ifindex
                <= list[j].ifindex,
{
}

/// The line of an interface in a listing; a star marks one that is up.
pub open spec fn interface_text(interface: Interface) -> Seq<char> {
    (if interface.ifindex < 0 {
        "-"@ + decimal((-interface.ifindex) as nat)
    } else {
        decimal(interface.ifindex as nat)
    }) + ". "@ + interface.name + (if interface.is_up {
        "*"@
    } else {
        ""@
    })
}

/// The line of an interface in a listing.
pub fn format_interface(info: &InterfaceInfo) -> (text: String)
    ensures
        text@ == interface_text(info@),
{
    let mut out: String = String::new();
    if info.ifindex < 0 {
        push_text(&mut out, "-");
        push_decimal(&mut out, (-(info.ifindex as i64)) as u128);
    } else {
        push_decimal(&mut out, info.ifindex as u128);
    }
    push_text(&mut out, ". ");
    push_text(&mut out, info.name.as_str());
    push_text(
        &mut out,
        if info.is_up {
            "*"
        } else {
            ""
        },
    );
    assert(out@ =~= interface_text(info@));
    out
}

} // verus!
