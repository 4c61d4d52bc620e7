//! Bookkeeping of the CPUs: their SMP indices, physical IDs and power states.
use vstd::prelude::*;
use std::collections::BTreeMap;
use crate::errno::{Errno, EResult};

verus! {

broadcast use vstd::std_specs::btree::group_btree_axioms, vstd::laws_cmp::group_laws_cmp;

/// Power status for a CPU.
#[derive(Clone, Copy, Debug, PartialEq, Eq, Structural)]
pub enum PowerState {
    /// CPU is in a pre-bootloader hand-over state.
    PreHandover,
    /// CPU is currently operational.
    Online,
    /// CPU is in a low-power suspend state.
    Suspended,
    /// CPU is fully powered off.
    PowerOff,
}

/// The power state with number `v`.
pub open spec fn power_state_spec(v: u32) -> PowerState {
    if v == 0 {
        PowerState::PreHandover
    } else if v == 1 {
        PowerState::Online
    } else if v == 2 {
        PowerState::Suspended
    } else {
        PowerState::PowerOff
    }
}

/// The power states are numbered in order: 0 before handover, 1 online, 2 suspended, 3 off.
pub proof fn lemma_power_state_numbers()
    ensures
        power_state_spec(0) == PowerState::PreHandover,
        power_state_spec(1) == PowerState::Online,
        power_state_spec(2) == PowerState::Suspended,
        power_state_spec(3) == PowerState::PowerOff,
{
}

/// The power state with number `v`; there are four.
pub fn power_state_from(v: u32) -> (r: PowerState)
    requires
        v < 4,
    ensures
        r == power_state_spec(v),
{
    match v {
        0 => PowerState::PreHandover,
        1 => PowerState::Online,
        2 => PowerState::Suspended,
        _ => PowerState::PowerOff,
    }
}

/// What is known of one CPU.
pub struct CpuRecord {
    /// SMP index of the CPU.
    pub smp_index: u32,
    /// Physical CPU ID (hart ID or local APIC ID).
    pub cpuid: u64,
    /// Current power status.
    pub power: PowerState,
    /// External interrupt controllers attached to the CPU.
    pub ext_irqctls: Vec<u64>,
}

/// The CPUs by SMP index and by physical ID.
pub struct SmpMaps {
    /// Map from SMP index to CPU record.
    pub by_index: BTreeMap<u32, CpuRecord>,
    /// Map from CPU ID to SMP index.
    pub by_cpuid: BTreeMap<u64, u32>,
    /// One more than the maximum allocated SMP index.
    pub cpu_index_end: u32,
}

/// A local interrupt controller as the ACPI MADT lists it.
#[derive(Clone, Copy, Debug, PartialEq, Eq, Structural)]
pub enum MadtEntry {
    /// Local APIC.
    Lapic { id: u32, flags: u32 },
    /// Local x2APIC.
    LocalX2apic { id: u32, flags: u32 },
    /// Any other entry.
    Other,
}

spec fn keys_ordered() -> bool {
    vstd::laws_cmp::obeys_cmp::<u32>() && vstd::laws_cmp::obeys_cmp::<u64>()
}

proof fn lemma_keys_ordered()
    ensures
        keys_ordered(),
{
}

/// The CPU IDs of the MADT entries of CPUs that are online or can be brought online.
pub open spec fn madt_cpus(madt: Seq<MadtEntry>) -> Seq<u64>
    decreases madt.len(),
{
    if madt.len() == 0 {
        Seq::empty()
    } else {
        let rest = madt_cpus(madt.drop_last());
        match madt.last() {
            MadtEntry::Lapic { id, flags } => if flags & 3 != 0 { rest.push(id as u64) } else { rest },
            MadtEntry::LocalX2apic { id, flags } => if flags & 3 != 0 { rest.push(id as u64) } else { rest },
            MadtEntry::Other => rest,
        }
    }
}

/// How many CPUs other than the boot CPU are among the first `n` CPU IDs.
pub open spec fn aps_before(ids: Seq<u64>, bsp: u64, n: int) -> int
    decreases n,
{
    if n <= 0 {
        0
    } else {
        aps_before(ids, bsp, n - 1) + if ids[n - 1] == bsp { 0int } else { 1 }
    }
}

/// The SMP index the `n`th CPU ID gets: zero for the boot CPU, else the count of other CPUs
/// before it plus one.
pub open spec fn smp_index_of(ids: Seq<u64>, bsp: u64, n: int) -> int {
    if ids[n] == bsp {
        0
    } else {
        aps_before(ids, bsp, n) + 1
    }
}

proof fn lemma_aps_before(ids: Seq<u64>, bsp: u64, n: int)
    requires
        0 <= n,
    ensures
        0 <= aps_before(ids, bsp, n) <= n,
    decreases n,
{
    if n > 0 {
        lemma_aps_before(ids, bsp, n - 1);
    }
}

impl SmpMaps {
    /// No CPUs known yet.
    pub fn new() -> (r: Self)
        ensures
            r.by_index@ == Map::<u32, CpuRecord>::empty(),
            r.by_cpuid@ == Map::<u64, u32>::empty(),
            r.cpu_index_end == 1,
    {
        SmpMaps { by_index: BTreeMap::new(), by_cpuid: BTreeMap::new(), cpu_index_end: 1 }
    }

    /// Record the CPU with ID `cpuid`: the boot CPU gets index zero and is online, any other
    /// the next index and waits in the bootloader. Returns the next index to hand out.
    pub fn add_cpu(&mut self, cpuid: u64, bsp_cpuid: u64, counter: u32) -> (r: u32)
        requires
            counter < u32::MAX,
        ensures
            ({
                let idx: u32 = if cpuid == bsp_cpuid { 0 } else { counter };
                &&& r == if cpuid == bsp_cpuid { counter } else { (counter + 1) as u32 }
                &&& final(self).by_cpuid@ == old(self).by_cpuid@.insert(cpuid, idx)
                &&& final(self).by_index@.dom() == old(self).by_index@.dom().insert(idx)
                &&& final(self).by_index@[idx].smp_index == idx
                &&& final(self).by_index@[idx].cpuid == cpuid
                &&& final(self).by_index@[idx].power == if cpuid == bsp_cpuid { PowerState::Online } else { PowerState::PreHandover }
                &&& final(self).by_index@[idx].ext_irqctls@.len() == 0
                &&& forall|i: u32| i != idx && #[trigger] old(self).by_index@.contains_key(i) ==> final(self).by_index@[i] == old(self).by_index@[i]
            }),
            final(self).cpu_index_end == old(self).cpu_index_end,
    {
        proof {
            lemma_keys_ordered();
        }
        let smp_index: u32;
        let power;
        let next;
        if cpuid == bsp_cpuid {
            smp_index = 0;
            power = PowerState::Online;
            next = counter;
        } else {
            smp_index = counter;
            next = counter + 1;
            power = PowerState::PreHandover;
        }
        let status = CpuRecord { smp_index, cpuid, power, ext_irqctls: Vec::new() };
        self.by_index.insert(smp_index, status);
        self.by_cpuid.insert(cpuid, smp_index);
        next
    }

    /// Get SMP index from physical CPU ID.
    pub fn by_phys_id(&self, cpuid: u64) -> (r: Option<u32>)
        ensures
            self.by_cpuid@.contains_key(cpuid) ==> r == Some(self.by_cpuid@[cpuid]),
            !self.by_cpuid@.contains_key(cpuid) ==> r is None,
    {
        proof {
            lemma_keys_ordered();
        }
        match self.by_cpuid.get(&cpuid) {
            Some(i) => Some(*i),
            None => None,
        }
    }

    /// One more than the maximum allocated SMP index.
    pub fn cpu_index_end(&self) -> (r: u32)
        ensures
            r == self.cpu_index_end,
    {
        self.cpu_index_end
    }

    /// Attach an external interrupt controller to a CPU.
    pub fn register_ext_irqctl(&mut self, smp_index: u32, ctl: u64) -> (r: EResult<()>)
        ensures
            !old(self).by_index@.contains_key(smp_index) ==> r == Err::<(), Errno>(Errno::ENOENT) && final(self).by_index@ == old(self).by_index@,
            old(self).by_index@.contains_key(smp_index) ==> r is Ok
                && final(self).by_index@.dom() == old(self).by_index@.dom()
                && final(self).by_index@[smp_index].ext_irqctls@ == old(self).by_index@[smp_index].ext_irqctls@.push(ctl)
                && final(self).by_index@[smp_index].power == old(self).by_index@[smp_index].power
                && final(self).by_index@[smp_index].cpuid == old(self).by_index@[smp_index].cpuid
                && final(self).by_index@[smp_index].smp_index == old(self).by_index@[smp_index].smp_index
                && forall|i: u32| i != smp_index && #[trigger] old(self).by_index@.contains_key(i) ==> final(self).by_index@[i] == old(self).by_index@[i],
            final(self).by_cpuid@ == old(self).by_cpuid@,
            final(self).cpu_index_end == old(self).cpu_index_end,
    {
        proof {
            lemma_keys_ordered();
        }
        let mut status = match self.by_index.remove(&smp_index) {
            Some(s) => s,
            None => {
                return Err(Errno::ENOENT);
            },
        };
        status.ext_irqctls.push(ctl);
        self.by_index.insert(smp_index, status);
        assert(self.by_index@.dom() =~= old(self).by_index@.dom());
        Ok(())
    }

    /// Record that CPU `index` is now online; the boot CPU reports before the maps exist and
    /// is skipped.
    pub fn report_online(&mut self, index: u32)
        requires
            index != 0 ==> old(self).by_index@.contains_key(index),
        ensures
            index == 0 ==> final(self).by_index@ == old(self).by_index@,
            index != 0 ==> final(self).by_index@.dom() == old(self).by_index@.dom()
                && final(self).by_index@[index].power == PowerState::Online
                && final(self).by_index@[index].cpuid == old(self).by_index@[index].cpuid
                && final(self).by_index@[index].smp_index == old(self).by_index@[index].smp_index
                && final(self).by_index@[index].ext_irqctls@ == old(self).by_index@[index].ext_irqctls@
                && forall|i: u32| i != index && #[trigger] old(self).by_index@.contains_key(i) ==> final(self).by_index@[i] == old(self).by_index@[i],
            final(self).by_cpuid@ == old(self).by_cpuid@,
            final(self).cpu_index_end == old(self).cpu_index_end,
    {
        proof {
            lemma_keys_ordered();
        }
        if index != 0 {
            let mut status = match self.by_index.remove(&index) {
                Some(s) => s,
                None => {
                    return;
                },
            };
            status.power = PowerState::Online;
            self.by_index.insert(index, status);
            assert(self.by_index@.dom() =~= old(self).by_index@.dom());
        }
    }

    /// What powering on CPU `index` takes.
    pub fn poweron(&self, index: u32) -> (r: EResult<PowerAction>)
        ensures
            !self.by_index@.contains_key(index) ==> r == Err::<PowerAction, Errno>(Errno::ENOENT),
            self.by_index@.contains_key(index) ==> r == Ok::<PowerAction, Errno>(match self.by_index@[index].power {
                PowerState::PreHandover => PowerAction::Bootstrap(self.by_index@[index].cpuid),
                PowerState::Online => PowerAction::Nothing,
                PowerState::Suspended => PowerAction::Resume,
                PowerState::PowerOff => PowerAction::PowerUp,
            }),
    {
        proof {
            lemma_keys_ordered();
        }
        let status = match self.by_index.get(&index) {
            Some(s) => s,
            None => {
                return Err(Errno::ENOENT);
            },
        };
        Ok(match status.power {
            PowerState::PreHandover => PowerAction::Bootstrap(status.cpuid),
            PowerState::Online => PowerAction::Nothing,
            PowerState::Suspended => PowerAction::Resume,
            PowerState::PowerOff => PowerAction::PowerUp,
        })
    }
}

/// What bringing a CPU online takes.
#[derive(Clone, Copy, Debug, PartialEq, Eq, Structural)]
pub enum PowerAction {
    /// Hand the CPU with this physical ID over from the bootloader, then wait until it reports.
    Bootstrap(u64),
    /// The CPU is already online.
    Nothing,
    /// Wake the CPU from suspension.
    Resume,
    /// Power the CPU up.
    PowerUp,
}

/// The CPU IDs of the CPUs that the MADT lists as usable.
pub fn madt_cpu_ids(madt: &Vec<MadtEntry>) -> (r: Vec<u64>)
    ensures
        r@ == madt_cpus(madt@),
{
    let mut r: Vec<u64> = Vec::new();
    let mut i: usize = 0;
    while i < madt.len()
        invariant
            i <= madt@.len(),
            r@ == madt_cpus(madt@.take(i as int)),
        decreases madt@.len() - i,
    {
        proof {
            assert(madt@.take(i + 1).drop_last() =~= madt@.take(i as int));
        }
        match madt[i] {
            MadtEntry::Lapic { id, flags } => {
                if flags & 3 != 0 {
                    r.push(id as u64);
                }
            },
            MadtEntry::LocalX2apic { id, flags } => {
                if flags & 3 != 0 {
                    r.push(id as u64);
                }
            },
            MadtEntry::Other => {},
        }
        i = i + 1;
    }
    assert(madt@.take(madt@.len() as int) =~= madt@);
    r
}

/// The map from CPU ID to SMP index after recording the first `n` CPU IDs.
pub open spec fn cpuid_map(ids: Seq<u64>, bsp: u64, n: int) -> Map<u64, u32>
    decreases n,
{
    if n <= 0 {
        Map::empty()
    } else {
        cpuid_map(ids, bsp, n - 1).insert(ids[n - 1], smp_index_of(ids, bsp, n - 1) as u32)
    }
}

/// The SMP indices in use after recording the first `n` CPU IDs.
pub open spec fn index_set(ids: Seq<u64>, bsp: u64, n: int) -> Set<u32>
    decreases n,
{
    if n <= 0 {
        Set::empty()
    } else {
        index_set(ids, bsp, n - 1).insert(smp_index_of(ids, bsp, n - 1) as u32)
    }
}

/// The record at SMP index `idx` describes one of the CPUs `ids`: it carries its own index,
/// the boot CPU is online and every other CPU waits to be handed over, and no external
/// interrupt controller is attached yet.
pub open spec fn record_ok(rec: CpuRecord, idx: u32, ids: Seq<u64>, bsp: u64) -> bool {
    &&& rec.smp_index == idx
    &&& ids.contains(rec.cpuid)
    &&& rec.power == if rec.cpuid == bsp { PowerState::Online } else { PowerState::PreHandover }
    &&& rec.ext_irqctls@.len() == 0
}

/// Record the CPUs with the IDs `ids`, in order, with the boot CPU `bsp_cpuid`.
pub fn init_cpus(ids: &Vec<u64>, bsp_cpuid: u64) -> (r: SmpMaps)
    requires
        ids@.len() < u32::MAX,
    ensures
        r.cpu_index_end == aps_before(ids@, bsp_cpuid, ids@.len() as int) + 1,
        r.by_cpuid@ == cpuid_map(ids@, bsp_cpuid, ids@.len() as int),
        r.by_index@.dom() == index_set(ids@, bsp_cpuid, ids@.len() as int),
        forall|idx: u32| #[trigger] r.by_index@.contains_key(idx) ==> record_ok(r.by_index@[idx], idx, ids@, bsp_cpuid),
{
    proof {
        lemma_keys_ordered();
    }
    let mut maps = SmpMaps::new();
    let mut counter: u32 = 1;
    let mut i: usize = 0;
    proof {
        assert(maps.by_index@.dom() =~= Set::<u32>::empty());
    }
    while i < ids.len()
        invariant
            i <= ids@.len() < u32::MAX,
            counter == aps_before(ids@, bsp_cpuid, i as int) + 1,
            maps.cpu_index_end == 1,
            keys_ordered(),
            maps.by_cpuid@ == cpuid_map(ids@, bsp_cpuid, i as int),
            maps.by_index@.dom() == index_set(ids@, bsp_cpuid, i as int),
            forall|idx: u32| #[trigger] maps.by_index@.contains_key(idx) ==> record_ok(maps.by_index@[idx], idx, ids@.take(i as int), bsp_cpuid),
        decreases ids@.len() - i,
    {
        proof {
            lemma_aps_before(ids@, bsp_cpuid, i as int);
        }
        let ghost before = maps;
        counter = maps.add_cpu(ids[i], bsp_cpuid, counter);
        proof {
            let t = ids@.take(i + 1);
            assert(t[i as int] == ids@[i as int]);
            assert forall|idx: u32| #[trigger] maps.by_index@.contains_key(idx) implies record_ok(maps.by_index@[idx], idx, t, bsp_cpuid) by {
                if before.by_index@.contains_key(idx) && maps.by_index@[idx] == before.by_index@[idx] {
                    let c = before.by_index@[idx].cpuid;
                    assert(record_ok(before.by_index@[idx], idx, ids@.take(i as int), bsp_cpuid));
                    let j = choose|j: int| 0 <= j < i && ids@.take(i as int)[j] == c;
                    assert(t[j] == c);
                }
            }
        }
        i = i + 1;
    }
    proof {
        assert(ids@.take(ids@.len() as int) =~= ids@);
    }
    maps.cpu_index_end = counter;
    maps
}

/// Initialize the SMP bookkeeping from the ACPI MADT: every local APIC that is online or can be
/// brought online is a CPU.
pub fn init_acpi(madt: &Vec<MadtEntry>, bsp_cpuid: u64) -> (r: SmpMaps)
    requires
        madt@.len() < u32::MAX,
    ensures
        ({
            let ids = madt_cpus(madt@);
            &&& r.cpu_index_end == aps_before(ids, bsp_cpuid, ids.len() as int) + 1
            &&& r.by_cpuid@ == cpuid_map(ids, bsp_cpuid, ids.len() as int)
            &&& r.by_index@.dom() == index_set(ids, bsp_cpuid, ids.len() as int)
            &&& forall|idx: u32| #[trigger] r.by_index@.contains_key(idx) ==> record_ok(r.by_index@[idx], idx, ids, bsp_cpuid)
        }),
{
    let ids = madt_cpu_ids(madt);
    proof {
        lemma_madt_cpus_len(madt@);
    }
    init_cpus(&ids, bsp_cpuid)
}

proof fn lemma_madt_cpus_len(madt: Seq<MadtEntry>)
    ensures
        madt_cpus(madt).len() <= madt.len(),
    decreases madt.len(),
{
    if madt.len() > 0 {
        lemma_madt_cpus_len(madt.drop_last());
    }
}

/// The CPU IDs of the device-tree CPU nodes that have a `reg` property.
pub open spec fn dtb_cpus(regs: Seq<Option<u64>>) -> Seq<u64>
    decreases regs.len(),
{
    if regs.len() == 0 {
        Seq::empty()
    } else {
        let rest = dtb_cpus(regs.drop_last());
        match regs.last() {
            Some(id) => rest.push(id),
            None => rest,
        }
    }
}

/// Initialize the SMP bookkeeping from the device tree: the `reg` property of each CPU node is
/// its ID, and nodes without one are skipped.
pub fn init_dtb(cpu_regs: &Vec<Option<u64>>, bsp_cpuid: u64) -> (r: SmpMaps)
    requires
        cpu_regs@.len() < u32::MAX,
    ensures
        ({
            let ids = dtb_cpus(cpu_regs@);
            &&& r.cpu_index_end == aps_before(ids, bsp_cpuid, ids.len() as int) + 1
            &&& r.by_cpuid@ == cpuid_map(ids, bsp_cpuid, ids.len() as int)
            &&& r.by_index@.dom() == index_set(ids, bsp_cpuid, ids.len() as int)
            &&& forall|idx: u32| #[trigger] r.by_index@.contains_key(idx) ==> record_ok(r.by_index@[idx], idx, ids, bsp_cpuid)
        }),
{
    let mut ids: Vec<u64> = Vec::new();
    let mut i: usize = 0;
    while i < cpu_regs.len()
        invariant
            i <= cpu_regs@.len(),
            ids@ == dtb_cpus(cpu_regs@.take(i as int)),
            ids@.len() <= i,
        decreases cpu_regs@.len() - i,
    {
        proof {
            assert(cpu_regs@.take(i + 1).drop_last() =~= cpu_regs@.take(i as int));
        }
        if let Some(id) = cpu_regs[i] {
            ids.push(id);
        }
        i = i + 1;
    }
    proof {
        assert(cpu_regs@.take(cpu_regs@.len() as int) =~= cpu_regs@);
    }
    init_cpus(&ids, bsp_cpuid)
}

/// What powering on all application processors does next.
#[derive(Clone, Copy, Debug)]
pub enum ApsStep {
    /// Power on the CPU with this SMP index.
    PowerOn(u32),
    /// All are done, with this result.
    Done(EResult<()>),
}

/// Powering on all application processors, one after the other: after CPU `last` came up with
/// `outcome` (or at the start, with `None`), power on the next index below `end`; a CPU that
/// does not exist is skipped and any other failure ends the walk.
pub fn poweron_all_aps(end: u32, last: Option<(u32, EResult<()>)>) -> (r: ApsStep)
    ensures
        r == match last {
            None => if 1 < end { ApsStep::PowerOn(1) } else { ApsStep::Done(Ok(())) },
            Some((id, outcome)) => match outcome {
                Err(e) => if e != Errno::ENOENT { ApsStep::Done(Err(e)) } else if id + 1 < end { ApsStep::PowerOn((id + 1) as u32) } else { ApsStep::Done(Ok(())) },
                Ok(()) => if id + 1 < end { ApsStep::PowerOn((id + 1) as u32) } else { ApsStep::Done(Ok(())) },
            },
        },
{
    let next: u32 = match last {
        None => 1,
        Some((id, outcome)) => {
            match outcome {
                Err(e) => {
                    if e != Errno::ENOENT {
                        return ApsStep::Done(Err(e));
                    }
                },
                Ok(()) => {},
            }
            if id >= end {
                return ApsStep::Done(Ok(()));
            }
            id + 1
        },
    };
    if next < end {
        ApsStep::PowerOn(next)
    } else {
        ApsStep::Done(Ok(()))
    }
}

} // verus!
