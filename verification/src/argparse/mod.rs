//! Declaring the flags of a command line: each flag gets its own number,
//! and a short flag's character may be used by one flag only.
pub mod iterator;

use std::collections::{HashMap, HashSet};
use vstd::prelude::*;

verus! {

broadcast use vstd::std_specs::hash::group_hash_axioms;

/// The number of a declared flag.
#[derive(Clone, Copy, PartialEq, Eq, Hash)]
struct FlagId(usize);

impl FlagId {
    /// Hands out this number and moves on to the next.
    fn assign(&mut self) -> (flag: FlagId)
        requires
            old(self).0 < usize::MAX,
        ensures
            flag == *old(self),
            final(self).0 == old(self).0 + 1,
    {
        let flag = FlagId(self.0);
        self.0 = self.0 + 1;
        flag
    }
}

/// The flags declared so far.
pub struct FlagSet<'a> {
    help: Option<&'a str>,
    next_flag_id: FlagId,
    short_to_id: HashMap<u32, usize>,
    flag_id_with_arg: HashSet<usize>,
}

/// A flag that is either given or not.
#[derive(PartialEq, Eq, Hash)]
pub struct BoolFlag {
    id: FlagId,
}

impl BoolFlag {
    /// The number of the flag.
    pub closed spec fn id(&self) -> nat {
        self.id.0 as nat
    }
}

/// A flag that takes an argument.
pub struct Flag<T> {
    value: Option<T>,
    id: FlagId,
}

impl<T> Flag<T> {
    /// The number of the flag.
    pub closed spec fn id(&self) -> nat {
        self.id.0 as nat
    }

    /// The value of the flag, if it has one.
    pub closed spec fn value(&self) -> Option<T> {
        self.value
    }
}

impl<'a> FlagSet<'a> {
    /// The number the next flag gets.
    pub closed spec fn next_id(&self) -> nat {
        self.next_flag_id.0 as nat
    }

    /// The number of the flag of each short character in use, by the
    /// character's code.
    pub closed spec fn shorts(&self) -> Map<u32, usize> {
        self.short_to_id@
    }

    /// The help text.
    pub closed spec fn help(&self) -> Option<&'a str> {
        self.help
    }

    pub fn new() -> (res: FlagSet<'a>)
        ensures
            res.next_id() == 0,
            res.shorts() == Map::<u32, usize>::empty(),
            res.help() is None,
    {
        return FlagSet {
            help: None,
            next_flag_id: FlagId(0),
            short_to_id: HashMap::new(),
            flag_id_with_arg: HashSet::new(),
        };
    }

    /// Declares a flag that is given or not, by its short character. The
    /// character must not be in use already; long flags are not supported.
    pub fn bool(&mut self, short: Option<char>, long: Option<&'a str>) -> (res: BoolFlag)
        requires
            short is Some || long is Some,
            long is None,
            short matches Some(c) ==> !old(self).shorts().contains_key(c as u32),
            old(self).next_id() < usize::MAX,
        ensures
            res.id() == old(self).next_id(),
            final(self).next_id() == old(self).next_id() + 1,
            final(self).shorts() == old(self).shorts().insert(
                short->0 as u32,
                old(self).next_id() as usize,
            ),
            final(self).help() == old(self).help(),
    {
        let flag = BoolFlag { id: self.next_flag_id.assign() };
        if let Some(c) = short {
            let previous = self.short_to_id.insert(c as u32, flag.id.0);
            assert(previous is None);
        }
        return flag;
    }

    /// Declares a flag that takes an argument. It has no value yet.
    pub fn arg<T, U>(&mut self, short: Option<u8>, long: Option<&'a str>) -> (res: Flag<T>)
        requires
            short is Some || long is Some,
            old(self).next_id() < usize::MAX,
        ensures
            res.id() == old(self).next_id(),
            res.value() is None,
            final(self).next_id() == old(self).next_id() + 1,
            final(self).shorts() == old(self).shorts(),
            final(self).help() == old(self).help(),
    {
        let flag = Flag { value: None, id: self.next_flag_id.assign() };
        return flag;
    }
}

/// The flags given on a command line.
pub struct ParsedFlagSet {
    bool_flags: HashSet<usize>,
}

impl ParsedFlagSet {
    /// The numbers of the flags that were given.
    pub closed spec fn given(&self) -> Set<usize> {
        self.bool_flags@
    }

    /// Whether the flag was given.
    pub fn get_bool(&self, flag: BoolFlag) -> (res: bool)
        ensures
            res == self.given().contains(flag.id() as usize),
    {
        self.bool_flags.contains(&flag.id.0)
    }
}

proof fn lemma_flag_ids_count(sets: Seq<FlagSet>, k: nat)
    requires
        k < sets.len(),
        forall|i: int|
            0 <= i < sets.len() - 1 ==> #[trigger] sets[i + 1].next_id() == sets[i].next_id() + 1,
    ensures
        sets[k as int].next_id() == sets[0].next_id() + k,
    decreases k,
{
    if k > 0 {
        lemma_flag_ids_count(sets, (k - 1) as nat);
        assert(sets[(k - 1) + 1].next_id() == sets[k - 1].next_id() + 1);
    }
}

/// **Law.** Flags declared one after another on a flag set, by `bool` and
/// `arg` in any mix, each get the number the set hands out next, and so get
/// distinct numbers, each below the number the set hands out after them.
pub proof fn law_flag_ids_distinct(sets: Seq<FlagSet>, ids: Seq<nat>)
    requires
        sets.len() == ids.len() + 1,
        forall|i: int| 0 <= i < ids.len() ==> #[trigger] ids[i] == sets[i].next_id(),
        forall|i: int|
            0 <= i < ids.len() ==> #[trigger] sets[i + 1].next_id() == sets[i].next_id() + 1,
    ensures
        forall|i: int, j: int| 0 <= i < j < ids.len() ==> ids[i] < ids[j],
        forall|i: int| 0 <= i < ids.len() ==> ids[i] < sets.last().next_id(),
{
    assert forall|i: int| 0 <= i < sets.len() implies #[trigger] sets[i].next_id() == sets[0].next_id()
        + i by {
        lemma_flag_ids_count(sets, i as nat);
    }
    assert(sets.last() == sets[ids.len() as int]);
}

} // verus!
