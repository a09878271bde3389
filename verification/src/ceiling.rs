//! Build-time priority ceiling resolver: given the full static
//! task/resource declaration, computes for every shared resource the
//! ceiling priority, i.e. the highest static priority among all tasks that
//! reference it. Pure and deterministic; run once before the system comes
//! up. A resource that no task references, a task that references an
//! undeclared resource, and a non-idle task at the reserved priority 0 are
//! configuration errors that keep the system from being built at all.
use crate::ConfigError;
use vstd::prelude::*;

verus! {

/// Static declaration of one task: its fixed priority, its message queue
/// capacity, and the set of resources it may access, as indices into the
/// resource table.
pub struct TaskDecl {
    /// Small positive integer; higher = more urgent. 0 is reserved for the
    /// idle task, which is not part of the declaration table.
    pub priority: u8,
    /// Capacity of the task's message queue (default 1 when not configured
    /// otherwise).
    pub queue_capacity: usize,
    /// The resource-table index of each resource the task shares.
    pub resources: Vec<usize>,
}

/// Task `t` of the declaration references resource `r`.
pub open spec fn task_refs(tasks: Seq<TaskDecl>, t: int, r: usize) -> bool {
    0 <= t < tasks.len() && tasks[t].resources@.contains(r)
}

/// Some task references resource `r`.
pub open spec fn some_task_refs(tasks: Seq<TaskDecl>, r: usize) -> bool {
    exists|t: int| task_refs(tasks, t, r)
}

/// `p` is the ceiling of resource `r`: the maximum priority among the tasks
/// that reference `r`.
pub open spec fn is_ceiling(tasks: Seq<TaskDecl>, r: usize, p: int) -> bool {
    &&& exists|t: int| task_refs(tasks, t, r) && tasks[t].priority == p
    &&& forall|t: int| task_refs(tasks, t, r) ==> tasks[t].priority <= p
}

/// Every resource reference of every task falls inside the resource table.
pub open spec fn refs_declared(tasks: Seq<TaskDecl>, n_resources: usize) -> bool {
    forall|t: int, k: int|
        0 <= t < tasks.len() && 0 <= k < tasks[t].resources@.len()
            ==> tasks[t].resources@[k] < n_resources
}

/// No declared task uses the reserved idle priority 0.
pub open spec fn priorities_valid(tasks: Seq<TaskDecl>) -> bool {
    forall|t: int| 0 <= t < tasks.len() ==> tasks[t].priority >= 1
}

/// Every declared resource is referenced by at least one task.
pub open spec fn all_referenced(tasks: Seq<TaskDecl>, n_resources: usize) -> bool {
    forall|r: usize| r < n_resources ==> some_task_refs(tasks, r)
}

/// `r` occurs among the first `k` elements of `rs`.
spec fn in_prefix(rs: Seq<usize>, k: int, r: usize) -> bool {
    exists|i: int| 0 <= i < k && rs[i] == r
}

/// Folds one task's references into the running ceiling table: afterwards
/// each referenced resource holds the maximum of its old value and the
/// task's priority. Fails with the offending index when the task references
/// a resource outside the table (the table is then half-updated; the caller
/// discards it).
fn apply_task(ceilings: &mut Vec<u8>, decl: &TaskDecl, n_resources: usize) -> (ok: Result<
    (),
    usize,
>)
    requires
        old(ceilings)@.len() == n_resources,
    ensures
        final(ceilings)@.len() == n_resources,
        (match ok {
            Ok(_) => {
                &&& forall|k: int|
                    0 <= k < decl.resources@.len() ==> decl.resources@[k] < n_resources
                &&& forall|r: int|
                    0 <= r < n_resources ==> final(ceilings)@[r] == (
                    if decl.resources@.contains(r as usize) && decl.priority > old(ceilings)@[r] {
                        decl.priority
                    } else {
                        old(ceilings)@[r]
                    })
            },
            Err(rid) => rid >= n_resources && decl.resources@.contains(rid),
        }),
{
    let ghost c0 = ceilings@;
    let ghost rs = decl.resources@;
    let mut k: usize = 0;
    while k < decl.resources.len()
        invariant
            ceilings@.len() == n_resources,
            c0.len() == n_resources,
            k <= rs.len(),
            rs == decl.resources@,
            forall|i: int| 0 <= i < k ==> rs[i] < n_resources,
            forall|r: int|
                0 <= r < n_resources ==> ceilings@[r] == (
                if in_prefix(rs, k as int, r as usize) && decl.priority > c0[r] {
                    decl.priority
                } else {
                    c0[r]
                }),
        decreases rs.len() - k,
    {
        let rid = decl.resources[k];
        if rid >= n_resources {
            proof {
                assert(rs[k as int] == rid);
            }
            return Err(rid);
        }
        let ghost pre = ceilings@;
        if decl.priority > ceilings[rid] {
            ceilings[rid] = decl.priority;
        }
        proof {
            assert forall|r: int| 0 <= r < n_resources implies ceilings@[r] == (
            if in_prefix(rs, k + 1, r as usize) && decl.priority > c0[r] {
                decl.priority
            } else {
                c0[r]
            }) by {
                if r == rid {
                    assert(in_prefix(rs, k + 1, rid)) by {
                        assert(0 <= k < k + 1 && rs[k as int] == rid);
                    }
                } else {
                    // membership in the prefix is unchanged for other ids
                    if in_prefix(rs, k + 1, r as usize) {
                        let i = choose|i: int| 0 <= i < k + 1 && rs[i] == r as usize;
                        assert(i < k && in_prefix(rs, k as int, r as usize));
                    }
                    if in_prefix(rs, k as int, r as usize) {
                        assert(in_prefix(rs, k + 1, r as usize));
                    }
                }
            }
        }
        k = k + 1;
    }
    proof {
        assert forall|r: int| 0 <= r < n_resources implies ceilings@[r] == (
        if rs.contains(r as usize) && decl.priority > c0[r] {
            decl.priority
        } else {
            c0[r]
        }) by {
            assert(in_prefix(rs, rs.len() as int, r as usize) == rs.contains(r as usize)) by {
                if in_prefix(rs, rs.len() as int, r as usize) {
                    let i = choose|i: int| 0 <= i < rs.len() && rs[i] == r as usize;
                    assert(rs[i] == r as usize);
                }
                if rs.contains(r as usize) {
                    let i = choose|i: int| 0 <= i < rs.len() && rs[i] == r as usize;
                    assert(in_prefix(rs, rs.len() as int, r as usize));
                }
            }
        }
    }
    Ok(())
}

/// Computes the ceiling table for the whole declaration: `Ok(c)` exactly
/// when every priority is positive, every reference is declared and every
/// resource is referenced, and then `c[r]` is the ceiling of resource `r`.
/// Each error carries a witness of the offending declaration entry.
pub fn compute_ceilings(tasks: &Vec<TaskDecl>, n_resources: usize) -> (r: Result<
    Vec<u8>,
    ConfigError,
>)
    ensures
        r is Ok <==> priorities_valid(tasks@) && refs_declared(tasks@, n_resources)
            && all_referenced(tasks@, n_resources),
        (match r {
            Ok(c) => c@.len() == n_resources && forall|j: usize|
                j < n_resources ==> is_ceiling(tasks@, j, c@[j as int] as int),
            Err(ConfigError::InvalidPriority { task }) => task < tasks@.len() && tasks@[task as int].priority
                == 0,
            Err(ConfigError::UndeclaredResource { task, resource }) => task_refs(
                tasks@,
                task as int,
                resource,
            ) && resource >= n_resources,
            Err(ConfigError::UnreferencedResource { resource }) => resource < n_resources
                && !some_task_refs(tasks@, resource),
        }),
{
    let mut ceilings: Vec<u8> = Vec::new();
    let mut j: usize = 0;
    while j < n_resources
        invariant
            j <= n_resources,
            ceilings@.len() == j,
            forall|i: int| 0 <= i < j ==> ceilings@[i] == 0,
        decreases n_resources - j,
    {
        ceilings.push(0);
        j = j + 1;
    }
    let mut t: usize = 0;
    while t < tasks.len()
        invariant
            t <= tasks@.len(),
            ceilings@.len() == n_resources,
            forall|i: int| 0 <= i < t ==> tasks@[i].priority >= 1,
            forall|i: int, k: int|
                0 <= i < t && 0 <= k < tasks@[i].resources@.len() ==> tasks@[i].resources@[k]
                    < n_resources,
            forall|i: int, k: int|
                0 <= i < t && 0 <= k < tasks@[i].resources@.len() ==> tasks@[i].priority
                    <= ceilings@[tasks@[i].resources@[k] as int],
            forall|r: int|
                0 <= r < n_resources && ceilings@[r] != 0 ==> (exists|i: int|
                    0 <= i < t && tasks@[i].resources@.contains(r as usize) && tasks@[i].priority
                        == ceilings@[r]),
        decreases tasks@.len() - t,
    {
        let decl = &tasks[t];
        if decl.priority == 0 {
            return Err(ConfigError::InvalidPriority { task: t });
        }
        let ghost pre = ceilings@;
        match apply_task(&mut ceilings, decl, n_resources) {
            Ok(_) => {
                proof {
                    assert forall|i: int, k: int|
                        0 <= i < t + 1 && 0 <= k < tasks@[i].resources@.len() implies tasks@[i].priority
                        <= ceilings@[tasks@[i].resources@[k] as int] by {
                        let rid = tasks@[i].resources@[k];
                        if i < t {
                            assert(tasks@[i].priority <= pre[rid as int]);
                            assert(ceilings@[rid as int] >= pre[rid as int]);
                        } else {
                            assert(tasks@[i].resources@.contains(rid));
                        }
                    }
                    assert forall|r: int| 0 <= r < n_resources && ceilings@[r] != 0 implies (
                    exists|i: int|
                        0 <= i < t + 1 && tasks@[i].resources@.contains(r as usize)
                            && tasks@[i].priority == ceilings@[r]) by {
                        if ceilings@[r] == pre[r] {
                            assert(pre[r] != 0);
                        } else {
                            assert(tasks@[t as int].resources@.contains(r as usize)
                                && tasks@[t as int].priority == ceilings@[r]);
                        }
                    }
                }
            },
            Err(rid) => {
                proof {
                    assert(task_refs(tasks@, t as int, rid));
                }
                return Err(ConfigError::UndeclaredResource { task: t, resource: rid });
            },
        }
        t = t + 1;
    }
    let mut r: usize = 0;
    while r < n_resources
        invariant
            r <= n_resources,
            ceilings@.len() == n_resources,
            priorities_valid(tasks@),
            refs_declared(tasks@, n_resources),
            forall|i: int, k: int|
                0 <= i < tasks@.len() && 0 <= k < tasks@[i].resources@.len() ==> tasks@[i].priority
                    <= ceilings@[tasks@[i].resources@[k] as int],
            forall|rr: int|
                0 <= rr < n_resources && ceilings@[rr] != 0 ==> (exists|i: int|
                    0 <= i < tasks@.len() && tasks@[i].resources@.contains(rr as usize)
                        && tasks@[i].priority == ceilings@[rr]),
            forall|rr: int| 0 <= rr < r ==> ceilings@[rr] != 0,
        decreases n_resources - r,
    {
        if ceilings[r] == 0 {
            proof {
                assert forall|tt: int| !(task_refs(tasks@, tt, r) && true) by {
                    if task_refs(tasks@, tt, r) {
                        let k = choose|k: int|
                            0 <= k < tasks@[tt].resources@.len() && tasks@[tt].resources@[k] == r;
                        assert(tasks@[tt].priority <= ceilings@[r as int]);
                        assert(tasks@[tt].priority >= 1);
                    }
                }
                assert(!some_task_refs(tasks@, r));
            }
            return Err(ConfigError::UnreferencedResource { resource: r });
        }
        r = r + 1;
    }
    proof {
        assert forall|jj: usize| jj < n_resources implies is_ceiling(
            tasks@,
            jj,
            ceilings@[jj as int] as int,
        ) by {
            assert(ceilings@[jj as int] != 0);
            assert forall|tt: int| task_refs(tasks@, tt, jj) implies tasks@[tt].priority
                <= ceilings@[jj as int] by {
                let k = choose|k: int|
                    0 <= k < tasks@[tt].resources@.len() && tasks@[tt].resources@[k] == jj;
                assert(tasks@[tt].priority <= ceilings@[tasks@[tt].resources@[k] as int]);
            }
            let i = choose|i: int|
                0 <= i < tasks@.len() && tasks@[i].resources@.contains(jj) && tasks@[i].priority
                    == ceilings@[jj as int];
            assert(task_refs(tasks@, i, jj) && tasks@[i].priority == ceilings@[jj as int] as int);
        }
        assert forall|jj: usize| jj < n_resources implies some_task_refs(tasks@, jj) by {
            assert(ceilings@[jj as int] != 0);
            let i = choose|i: int|
                0 <= i < tasks@.len() && tasks@[i].resources@.contains(jj) && tasks@[i].priority
                    == ceilings@[jj as int];
            assert(task_refs(tasks@, i, jj));
        }
    }
    Ok(ceilings)
}

} // verus!
