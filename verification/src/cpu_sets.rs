//! Which processors the workers prefer on a machine with processors of
//! different speed.
use vstd::prelude::*;

verus! {

/// The kind of record that describes a CPU set.
pub const CPU_SET_INFORMATION_TYPE: u32 = 0;

/// The least size of such a record.
pub const CPU_SET_INFORMATION_SIZE: usize = 32;

/// Set where the processor is parked.
pub const CPU_SET_PARKED: u8 = 0x1;

/// Set where the processor is given to one process alone.
pub const CPU_SET_ALLOCATED: u8 = 0x2;

/// Set where that process is this one.
pub const CPU_SET_ALLOCATED_TO_TARGET_PROCESS: u8 = 0x4;

/// The most attempts to read the list.
pub const QUERY_ATTEMPTS: u8 = 3;

/// A CPU set.
#[derive(Clone, Copy, Debug, PartialEq, Eq, Structural)]
pub struct CpuSet {
    pub id: u32,
    pub efficiency_class: u8,
    pub flags: u8,
}

/// The number that four bytes stand for, the least byte first.
pub open spec fn little_endian(bytes: Seq<u8>, start: int) -> int {
    bytes[start] + bytes[start + 1] * 0x100 + bytes[start + 2] * 0x1_0000 + bytes[start + 3]
        * 0x100_0000
}

/// Reads four bytes, the least byte first.
pub fn read_little_endian(bytes: &[u8], start: usize) -> (result: u32)
    requires
        start + 4 <= bytes@.len(),
    ensures
        result == little_endian(bytes@, start as int),
{
    let len: usize = bytes.len();
    bytes[start] as u32 + bytes[start + 1] as u32 * 0x100 + bytes[start + 2] as u32 * 0x1_0000
        + bytes[start + 3] as u32 * 0x100_0000
}

/// The CPU sets of the records from `offset` on; `None` where a record is cut
/// off or too small.
pub open spec fn records_from(buffer: Seq<u8>, offset: int) -> Option<Seq<CpuSet>>
    decreases buffer.len() - offset,
{
    if offset >= buffer.len() {
        Some(Seq::empty())
    } else if offset + 8 > buffer.len() {
        None
    } else {
        let size = little_endian(buffer, offset);
        let kind = little_endian(buffer, offset + 4);
        if size < 8 || offset + size > buffer.len() {
            None
        } else if kind != CPU_SET_INFORMATION_TYPE {
            records_from(buffer, offset + size)
        } else if size < CPU_SET_INFORMATION_SIZE {
            None
        } else {
            match records_from(buffer, offset + size) {
                Some(rest) => Some(
                    seq![
                        CpuSet {
                            id: little_endian(buffer, offset + 8) as u32,
                            efficiency_class: buffer[offset + 18],
                            flags: buffer[offset + 19],
                        },
                    ] + rest,
                ),
                None => None,
            }
        }
    }
}

/// What was read put before what follows.
pub open spec fn followed(read: Seq<CpuSet>, rest: Option<Seq<CpuSet>>) -> Option<Seq<CpuSet>> {
    match rest {
        Some(rest) => Some(read + rest),
        None => None,
    }
}

/// Reads a list of records.
pub fn parse_cpu_sets(buffer: &[u8]) -> (result: Option<Vec<CpuSet>>)
    ensures
        match result {
            Some(sets) => records_from(buffer@, 0) == Some(sets@),
            None => records_from(buffer@, 0) is None,
        },
{
    let mut sets: Vec<CpuSet> = Vec::new();
    let mut offset: usize = 0;
    let len: usize = buffer.len();
    proof {
        if let Some(rest) = records_from(buffer@, 0) {
            assert(sets@ + rest =~= rest);
        }
    }
    while offset < len
        invariant
            len == buffer@.len(),
            offset <= len,
            followed(sets@, records_from(buffer@, offset as int)) == records_from(buffer@, 0),
        decreases len - offset,
    {
        if len - offset < 8 {
            return None;
        }
        let size: usize = read_little_endian(buffer, offset) as usize;
        let kind: u32 = read_little_endian(buffer, offset + 4);
        if size < 8 || size > len - offset {
            return None;
        }
        if kind == CPU_SET_INFORMATION_TYPE {
            if size < CPU_SET_INFORMATION_SIZE {
                return None;
            }
            let set: CpuSet = CpuSet {
                id: read_little_endian(buffer, offset + 8),
                efficiency_class: buffer[offset + 18],
                flags: buffer[offset + 19],
            };
            let ghost before = sets@;
            sets.push(set);
            proof {
                if let Some(rest) = records_from(buffer@, offset + size) {
                    assert(before + (seq![set] + rest) =~= sets@ + rest);
                }
            }
        }
        offset = offset + size;
    }
    assert(sets@ + Seq::<CpuSet>::empty() =~= sets@);
    Some(sets)
}

/// Whether this process may use a CPU set now: it is not parked, and not given
/// to another process alone.
pub open spec fn available(set: CpuSet) -> bool {
    &&& set.flags & CPU_SET_PARKED == 0
    &&& set.flags & CPU_SET_ALLOCATED == 0 || set.flags & CPU_SET_ALLOCATED_TO_TARGET_PROCESS != 0
}

/// Whether a class is the highest of the available CPU sets.
pub open spec fn highest(sets: Seq<CpuSet>, class: u8) -> bool {
    &&& exists|i: int|
        0 <= i < sets.len() && available(#[trigger] sets[i]) && sets[i].efficiency_class == class
    &&& forall|i: int|
        0 <= i < sets.len() && available(#[trigger] sets[i]) ==> sets[i].efficiency_class <= class
}

/// Whether the available CPU sets are of different classes.
pub open spec fn heterogeneous(sets: Seq<CpuSet>) -> bool {
    exists|i: int, j: int|
        0 <= i < sets.len() && 0 <= j < sets.len() && available(#[trigger] sets[i]) && available(
            #[trigger] sets[j],
        ) && sets[i].efficiency_class < sets[j].efficiency_class
}

/// The numbers of the available CPU sets of a class, of the first `count`.
pub open spec fn ids_of(sets: Seq<CpuSet>, class: u8, count: int) -> Seq<u32>
    decreases count,
{
    if count <= 0 {
        Seq::empty()
    } else if available(sets[count - 1]) && sets[count - 1].efficiency_class == class {
        ids_of(sets, class, count - 1).push(sets[count - 1].id)
    } else {
        ids_of(sets, class, count - 1)
    }
}

/// Whether `ids` are the preferred ones: those of the highest class, or none
/// where all available CPU sets are of one class.
pub open spec fn preferred(sets: Seq<CpuSet>, ids: Seq<u32>) -> bool {
    if heterogeneous(sets) {
        exists|class: u8| #[trigger] highest(sets, class) && ids == ids_of(
            sets,
            class,
            sets.len() as int,
        )
    } else {
        ids.len() == 0
    }
}

fn is_available(set: CpuSet) -> (result: bool)
    ensures
        result == available(set),
{
    set.flags & CPU_SET_PARKED == 0 && (set.flags & CPU_SET_ALLOCATED == 0 || set.flags
        & CPU_SET_ALLOCATED_TO_TARGET_PROCESS != 0)
}

/// The available CPU sets of the highest class, or none where all are alike.
pub fn select_performance_cpu_sets(cpu_sets: &[CpuSet]) -> (result: Vec<u32>)
    ensures
        preferred(cpu_sets@, result@),
{
    let mut bounds: Option<(u8, u8)> = None;
    let ghost mut low: int = 0;
    let ghost mut high: int = 0;
    for index in 0..cpu_sets.len()
        invariant
            match bounds {
                None => forall|i: int| 0 <= i < index ==> !available(#[trigger] cpu_sets@[i]),
                Some((minimum, maximum)) => {
                    &&& 0 <= low < index && 0 <= high < index
                    &&& available(cpu_sets@[low]) && available(cpu_sets@[high])
                    &&& cpu_sets@[low].efficiency_class == minimum
                    &&& cpu_sets@[high].efficiency_class == maximum
                    &&& forall|i: int|
                        0 <= i < index && available(#[trigger] cpu_sets@[i]) ==> minimum
                            <= cpu_sets@[i].efficiency_class <= maximum
                },
            },
    {
        let set: CpuSet = cpu_sets[index];
        if is_available(set) {
            let class: u8 = set.efficiency_class;
            match bounds {
                None => {
                    bounds = Some((class, class));
                    proof {
                        low = index as int;
                        high = index as int;
                    }
                },
                Some((minimum, maximum)) => {
                    if class < minimum {
                        bounds = Some((class, maximum));
                        proof {
                            low = index as int;
                        }
                    } else if class > maximum {
                        bounds = Some((minimum, class));
                        proof {
                            high = index as int;
                        }
                    }
                },
            }
        }
    }
    let mut ids: Vec<u32> = Vec::new();
    match bounds {
        None => {
            return ids;
        },
        Some((minimum, maximum)) => {
            if minimum == maximum {
                return ids;
            }
            for index in 0..cpu_sets.len()
                invariant
                    ids@ == ids_of(cpu_sets@, maximum, index as int),
            {
                let set: CpuSet = cpu_sets[index];
                if is_available(set) && set.efficiency_class == maximum {
                    ids.push(set.id);
                }
            }
            proof {
                assert(available(cpu_sets@[low]) && available(cpu_sets@[high])
                    && cpu_sets@[low].efficiency_class < cpu_sets@[high].efficiency_class);
                assert(highest(cpu_sets@, maximum));
            }
            ids
        },
    }
}

/// The preferred CPU sets of what the system told; none where it told nothing
/// or what it told cannot be read.
pub fn preferred_performance_cpu_sets(information: Option<&[u8]>) -> (result: Vec<u32>)
    ensures
        match information {
            Some(buffer) => match records_from(buffer@, 0) {
                Some(sets) => preferred(sets, result@),
                None => result@.len() == 0,
            },
            None => result@.len() == 0,
        },
{
    match information {
        None => Vec::new(),
        Some(buffer) => match parse_cpu_sets(buffer) {
            None => Vec::new(),
            Some(sets) => select_performance_cpu_sets(sets.as_slice()),
        },
    }
}

/// Every preferred CPU set is available, is of the highest class, and is faster
/// than some available one.
pub proof fn lemma_preferred(sets: Seq<CpuSet>, ids: Seq<u32>, index: int)
    requires
        preferred(sets, ids),
        0 <= index < ids.len(),
    ensures
        exists|i: int|
            0 <= i < sets.len() && (#[trigger] sets[i]).id == ids[index] && available(sets[i])
                && highest(sets, sets[i].efficiency_class),
        exists|i: int, j: int|
            0 <= i < sets.len() && 0 <= j < sets.len() && available(#[trigger] sets[i])
                && available(#[trigger] sets[j]) && sets[i].efficiency_class
                < sets[j].efficiency_class && highest(sets, sets[j].efficiency_class),
{
    let class = choose|class: u8| #[trigger]
        highest(sets, class) && ids == ids_of(sets, class, sets.len() as int);
    lemma_ids(sets, class, sets.len() as int, index);
    let (low, other) = choose|i: int, j: int|
        0 <= i < sets.len() && 0 <= j < sets.len() && available(#[trigger] sets[i]) && available(
            #[trigger] sets[j],
        ) && sets[i].efficiency_class < sets[j].efficiency_class;
    let high = choose|i: int|
        0 <= i < sets.len() && available(#[trigger] sets[i]) && sets[i].efficiency_class == class;
    assert(available(sets[low]) && available(sets[high]) && sets[low].efficiency_class
        < sets[high].efficiency_class);
}

proof fn lemma_ids(sets: Seq<CpuSet>, class: u8, count: int, index: int)
    requires
        0 <= count <= sets.len(),
        0 <= index < ids_of(sets, class, count).len(),
    ensures
        exists|i: int|
            0 <= i < count && (#[trigger] sets[i]).id == ids_of(sets, class, count)[index]
                && available(sets[i]) && sets[i].efficiency_class == class,
    decreases count,
{
    let last = sets[count - 1];
    let before = ids_of(sets, class, count - 1);
    if index < before.len() {
        lemma_ids(sets, class, count - 1, index);
    }
}

/// How far a query of the system has come.
#[derive(Clone, Copy, Debug, PartialEq, Eq, Structural)]
pub struct Query {
    /// The attempts made.
    pub attempts: u8,
    /// The bytes that the next attempt makes room for.
    pub required: u32,
}

/// What to do next.
#[derive(Clone, Copy, Debug, PartialEq, Eq, Structural)]
pub enum QueryStep {
    /// Ask with room for this many bytes.
    Ask(Query),
    /// The first bytes of the room are the answer.
    Answer(u32),
    /// There is no answer.
    GiveUp,
}

/// The step after the system told how many bytes it needs.
pub fn begin_query(required: u32) -> (result: QueryStep)
    ensures
        result == if required == 0 {
            QueryStep::GiveUp
        } else {
            QueryStep::Ask(Query { attempts: 0, required })
        },
{
    if required == 0 {
        QueryStep::GiveUp
    } else {
        QueryStep::Ask(Query { attempts: 0, required })
    }
}

/// The step after an attempt. The list can grow between two calls, so an
/// attempt that asks for more room is repeated, three attempts in all.
pub fn continue_query(query: Query, succeeded: bool, returned: u32) -> (result: QueryStep)
    ensures
        result == if succeeded {
            if returned > query.required {
                QueryStep::GiveUp
            } else {
                QueryStep::Answer(returned)
            }
        } else if returned <= query.required || query.attempts + 1 >= QUERY_ATTEMPTS {
            QueryStep::GiveUp
        } else {
            QueryStep::Ask(Query { attempts: (query.attempts + 1) as u8, required: returned })
        },
{
    if succeeded {
        if returned > query.required {
            QueryStep::GiveUp
        } else {
            QueryStep::Answer(returned)
        }
    } else if returned <= query.required || query.attempts >= QUERY_ATTEMPTS - 1 {
        QueryStep::GiveUp
    } else {
        QueryStep::Ask(Query { attempts: query.attempts + 1, required: returned })
    }
}

} // verus!
