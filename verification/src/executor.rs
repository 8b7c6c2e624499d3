//! The pure parts of plan execution: which operations touch the pacman
//! database, and the receipts a finished plan produces.

use vstd::prelude::*;
use crate::backend::{ExecutionContext, PackageBackend};
use crate::model::{InstallReceipt, InstalledPackage, Source, TransactionOperation, TransactionPlan};
use crate::text::{owned, push_str};

verus! {

/// One backend's plan in a batch, with how to run its commands.
pub struct BackendPlan<'a> {
    pub backend: &'a dyn PackageBackend,
    pub plan: &'a TransactionPlan,
    pub ctx: ExecutionContext,
}

/// Plans that run as independent lanes.
pub struct ExecutionBatch<'a> {
    pub plans: Vec<BackendPlan<'a>>,
}

/// The outcome of one lane: its receipts, or the error that stopped it.
pub struct BackendReport {
    pub backend: &'static str,
    pub receipts: Vec<InstallReceipt>,
    pub error: Option<String>,
}

pub open spec fn uses_pacman_db(op: TransactionOperation) -> bool {
    op is InstallPackage || op is RemovePackage || op is UpgradePackage || op is SystemUpgrade
}

/// Whether an operation goes through the pacman database, whose lock
/// allows one transaction at a time.
pub fn op_uses_pacman_db(op: &TransactionOperation) -> (r: bool)
    ensures
        r == uses_pacman_db(*op),
{
    match op {
        TransactionOperation::InstallPackage { .. } => true,
        TransactionOperation::RemovePackage { .. } => true,
        TransactionOperation::UpgradePackage { .. } => true,
        TransactionOperation::SystemUpgrade { .. } => true,
        _ => false,
    }
}

/// The receipt recorded for one instance that a plan of `source` produced;
/// an instance without an install time gets `now`.
pub open spec fn receipt_of(
    plan: TransactionPlan,
    source: Source,
    pkg: InstalledPackage,
    now: i64,
) -> (Seq<char>, Seq<char>, Seq<char>, Seq<char>, Seq<char>, Option<String>, i64) {
    (
        pkg.name@,
        pkg.source.spec_name(),
        pkg.backend_ref@,
        source.spec_name(),
        plan.backend_ref@,
        pkg.version,
        match pkg.installed_at {
            Some(t) => t,
            None => now,
        },
    )
}

pub open spec fn receipt_view(r: InstallReceipt) -> (Seq<char>, Seq<char>, Seq<char>, Seq<char>, Seq<char>, Option<String>, i64) {
    (
        r.package_name@,
        r.installed_backend@,
        r.installed_backend_ref@,
        r.source@,
        r.source_ref@,
        r.version,
        r.installed_at,
    )
}

/// The receipts for the instances a plan of `source` left installed, in
/// order.
pub fn receipts_for(
    plan: &TransactionPlan,
    source: Source,
    instances: &Vec<InstalledPackage>,
    now: i64,
) -> (r: Vec<InstallReceipt>)
    ensures
        r@.len() == instances@.len(),
        forall|i: int|
            0 <= i < r@.len() ==> receipt_view(#[trigger] r@[i]) == receipt_of(
                *plan,
                source,
                instances@[i],
                now,
            ),
{
    let mut out: Vec<InstallReceipt> = Vec::new();
    let mut i: usize = 0;
    while i < instances.len()
        invariant
            i <= instances@.len(),
            out@.len() == i,
            forall|k: int|
                0 <= k < i ==> receipt_view(#[trigger] out@[k]) == receipt_of(
                    *plan,
                    source,
                    instances@[k],
                    now,
                ),
        decreases instances.len() - i,
    {
        let pkg = &instances[i];
        let installed_at = match pkg.installed_at {
            Some(t) => t,
            None => now,
        };
        out.push(
            InstallReceipt {
                package_name: pkg.name.clone(),
                installed_backend: owned(pkg.source.as_str()),
                installed_backend_ref: pkg.backend_ref.clone(),
                source: owned(source.as_str()),
                source_ref: plan.backend_ref.clone(),
                version: crate::model::copy_opt(&pkg.version),
                installed_at,
            },
        );
        i = i + 1;
    }
    out
}

/// `receipts` are the receipts of `instances`, left by a plan of `source`,
/// stamped with `t` where an instance has no install time.
pub open spec fn receipts_of(
    receipts: Seq<InstallReceipt>,
    plan: TransactionPlan,
    source: Source,
    instances: Seq<InstalledPackage>,
    t: i64,
) -> bool {
    receipts.len() == instances.len() && forall|i: int|
        0 <= i < instances.len() ==> receipt_view(#[trigger] receipts[i]) == receipt_of(
            plan,
            source,
            instances[i],
            t,
        )
}

/// `execute_locked` carried `op` out successfully under the lock.
pub open spec fn ran_locked<F: Fn(&TransactionOperation) -> Result<Result<(), String>, String>>(
    execute_locked: &F,
    op: TransactionOperation,
) -> bool {
    exists|o: &TransactionOperation, res: Result<Result<(), String>, String>|
        *o == op && execute_locked.ensures((o,), res) && res matches Ok(Ok(_))
}

/// The report of a lane that failed with `error`.
fn failed(backend: &'static str, error: String) -> (r: BackendReport)
    ensures
        r.backend == backend,
        r.receipts@.len() == 0,
        r.error == Some(error),
{
    BackendReport { backend, receipts: Vec::new(), error: Some(error) }
}

/// The report of a lane whose operation failed with `e`: the error is
/// prefixed with the backend's name.
fn operation_failed(backend: &'static str, e: String) -> (r: BackendReport)
    ensures
        r.backend == backend,
        r.receipts@.len() == 0,
        r.error matches Some(m) && m@ == backend@ + ": "@ + e@,
{
    let mut msg = owned(backend);
    push_str(&mut msg, ": ");
    push_str(&mut msg, e.as_str());
    failed(backend, msg)
}

/// `execute` carried `op` out successfully.
pub open spec fn ran_direct<E: Fn(&TransactionOperation) -> Result<(), String>>(
    execute: &E,
    op: TransactionOperation,
) -> bool {
    exists|o: &TransactionOperation, res: Result<(), String>|
        *o == op && execute.ensures((o,), res) && res is Ok
}

/// `op` was carried out successfully: under the lock when it goes through
/// the pacman database, directly otherwise.
pub open spec fn ran_op<
    E: Fn(&TransactionOperation) -> Result<(), String>,
    F: Fn(&TransactionOperation) -> Result<Result<(), String>, String>,
>(execute: &E, execute_locked: &F, op: TransactionOperation) -> bool {
    if uses_pacman_db(op) {
        ran_locked(execute_locked, op)
    } else {
        ran_direct(execute, op)
    }
}

/// Carrying out `op` failed with the lane error `e`: the lock could not be
/// taken (`e` as given), or the operation failed with `m` and `e` is the
/// backend's name, ": " and `m`.
pub open spec fn op_failed<
    E: Fn(&TransactionOperation) -> Result<(), String>,
    F: Fn(&TransactionOperation) -> Result<Result<(), String>, String>,
>(execute: &E, execute_locked: &F, name: Seq<char>, op: TransactionOperation, e: String) -> bool {
    if uses_pacman_db(op) {
        exists|o: &TransactionOperation, res: Result<Result<(), String>, String>|
            *o == op && execute_locked.ensures((o,), res) && (res == Err::<Result<(), String>, String>(
                e,
            ) || (res matches Ok(Err(m)) && e@ == name + ": "@ + m@))
    } else {
        exists|o: &TransactionOperation, res: Result<(), String>|
            *o == op && execute.ensures((o,), res) && (res matches Err(m) && e@ == name + ": "@ + m@)
    }
}

/// `installed` answered `res`.
pub open spec fn state_answer<I: Fn() -> Result<Vec<InstalledPackage>, String>>(
    installed: &I,
    res: Result<Vec<InstalledPackage>, String>,
) -> bool {
    installed.ensures((), res)
}

/// `instances` answered `res` for the states `before` and `after`.
pub open spec fn instances_answer<
    R: Fn(&[InstalledPackage], &[InstalledPackage]) -> Result<Vec<InstalledPackage>, String>,
>(
    instances: &R,
    before: Seq<InstalledPackage>,
    after: Seq<InstalledPackage>,
    res: Result<Vec<InstalledPackage>, String>,
) -> bool {
    exists|b: &[InstalledPackage], a: &[InstalledPackage]|
        b@ == before && a@ == after && instances.ensures((b, a), res)
}

/// What a lane did after reading the installed state `before`: it carried
/// out every operation of the plan in order, read the state again as
/// `after`, and made the receipts of the instances that `instances`
/// attributed to the plan for `before` and `after`, stamped with `t` where
/// they have no install time.
pub open spec fn lane_succeeded<
    I: Fn() -> Result<Vec<InstalledPackage>, String>,
    E: Fn(&TransactionOperation) -> Result<(), String>,
    F: Fn(&TransactionOperation) -> Result<Result<(), String>, String>,
    R: Fn(&[InstalledPackage], &[InstalledPackage]) -> Result<Vec<InstalledPackage>, String>,
    N: Fn() -> i64,
>(
    plan: TransactionPlan,
    source: Source,
    before: Seq<InstalledPackage>,
    installed: &I,
    execute: &E,
    execute_locked: &F,
    instances: &R,
    now: &N,
    receipts: Seq<InstallReceipt>,
) -> bool {
    &&& forall|k: int| 0 <= k < plan.operations@.len() ==> #[trigger] ran_op(
        execute,
        execute_locked,
        plan.operations@[k],
    )
    &&& exists|after: Vec<InstalledPackage>, inst: Vec<InstalledPackage>, t: i64|
        #![trigger instances_answer(instances, before, after@, Ok(inst)), receipts_of(receipts, plan, source, inst@, t)]
        state_answer(installed, Ok(after)) && instances_answer(instances, before, after@, Ok(inst))
            && now.ensures((), t) && receipts_of(receipts, plan, source, inst@, t)
}

/// Why a lane failed with `e` after reading the installed state `before`:
/// the `k`-th operation failed after all before it ran, or reading the
/// state again failed, or attributing the instances of `before` and the
/// state after failed.
pub open spec fn lane_failed<
    I: Fn() -> Result<Vec<InstalledPackage>, String>,
    E: Fn(&TransactionOperation) -> Result<(), String>,
    F: Fn(&TransactionOperation) -> Result<Result<(), String>, String>,
    R: Fn(&[InstalledPackage], &[InstalledPackage]) -> Result<Vec<InstalledPackage>, String>,
>(
    plan: TransactionPlan,
    name: Seq<char>,
    before: Seq<InstalledPackage>,
    installed: &I,
    execute: &E,
    execute_locked: &F,
    instances: &R,
    e: String,
) -> bool {
    ||| exists|k: int|
        0 <= k < plan.operations@.len() && (forall|j: int|
            0 <= j < k ==> #[trigger] ran_op(execute, execute_locked, plan.operations@[j]))
            && #[trigger] op_failed(execute, execute_locked, name, plan.operations@[k], e)
    ||| (forall|k: int| 0 <= k < plan.operations@.len() ==> #[trigger] ran_op(
        execute,
        execute_locked,
        plan.operations@[k],
    )) && (state_answer(installed, Err(e)) || exists|after: Vec<InstalledPackage>|
        state_answer(installed, Ok(after)) && #[trigger] instances_answer(
            instances,
            before,
            after@,
            Err(e),
        ))
}

/// Asks the lane's backend its source; nothing is promised of the answer.
pub fn lane_source(lane: &BackendPlan) -> Source {
    lane.backend.source()
}

/// Asks the lane's backend its name; nothing is promised of the answer.
pub fn lane_name(lane: &BackendPlan) -> &'static str {
    lane.backend.name()
}

/// Runs one lane: reads the backend's installed state (`installed`) and
/// goes on as `finish_lane` with it. A failed read ends the lane with that
/// error and no receipts.
pub fn run_lane<I, E, F, R, N>(
    lane: &BackendPlan,
    installed: &I,
    execute: &E,
    execute_locked: &F,
    instances: &R,
    now: &N,
) -> (r: BackendReport) where
    I: Fn() -> Result<Vec<InstalledPackage>, String>,
    E: Fn(&TransactionOperation) -> Result<(), String>,
    F: Fn(&TransactionOperation) -> Result<Result<(), String>, String>,
    R: Fn(&[InstalledPackage], &[InstalledPackage]) -> Result<Vec<InstalledPackage>, String>,
    N: Fn() -> i64,

    requires
        installed.requires(()),
        forall|op: &TransactionOperation| execute.requires((op,)),
        forall|op: &TransactionOperation| execute_locked.requires((op,)),
        forall|b: &[InstalledPackage], a: &[InstalledPackage]| instances.requires((b, a)),
        now.requires(()),
    ensures
        r.error is Some ==> r.receipts@.len() == 0,
        r.error is None ==> forall|i: int|
            0 <= i < r.receipts@.len() ==> (#[trigger] r.receipts@[i]).source_ref@
                == lane.plan.backend_ref@,
        lane_name.ensures((lane,), r.backend),
        r.error is None ==> exists|before: Vec<InstalledPackage>, source: Source|
            #[trigger] state_answer(installed, Ok(before)) && lane_source.ensures((lane,), source)
                && #[trigger] lane_succeeded(
                *lane.plan,
                source,
                before@,
                installed,
                execute,
                execute_locked,
                instances,
                now,
                r.receipts@,
            ),
        r.error matches Some(e) ==> state_answer(installed, Err(e)) || exists|
            before: Vec<InstalledPackage>,
        |
            #[trigger] state_answer(installed, Ok(before)) && lane_failed(
                *lane.plan,
                r.backend@,
                before@,
                installed,
                execute,
                execute_locked,
                instances,
                e,
            ),
{
    let ask_name = lane_name;
    let name = ask_name(lane);
    let before = match installed() {
        Ok(b) => b,
        Err(e) => {
            proof {
                assert(state_answer(installed, Err(e)));
            }
            return failed(name, e);
        },
    };
    proof {
        assert(state_answer(installed, Ok(before)));
    }
    finish_lane(lane, &before, installed, execute, execute_locked, instances, now)
}

/// Goes on with a lane whose installed state was read as `before`: carries
/// out the plan's operations in order (those that go through the pacman
/// database by `execute_locked`, which holds the database lock around the
/// operation and fails only when it cannot take it, the others by
/// `execute`), reads the state again, and turns the instances that
/// `instances` attributes to the plan for `before` and that state into
/// receipts; an instance without an install time is stamped with `now()`.
/// The first failure ends the lane with no receipts.
pub fn finish_lane<I, E, F, R, N>(
    lane: &BackendPlan,
    before: &Vec<InstalledPackage>,
    installed: &I,
    execute: &E,
    execute_locked: &F,
    instances: &R,
    now: &N,
) -> (r: BackendReport) where
    I: Fn() -> Result<Vec<InstalledPackage>, String>,
    E: Fn(&TransactionOperation) -> Result<(), String>,
    F: Fn(&TransactionOperation) -> Result<Result<(), String>, String>,
    R: Fn(&[InstalledPackage], &[InstalledPackage]) -> Result<Vec<InstalledPackage>, String>,
    N: Fn() -> i64,

    requires
        installed.requires(()),
        forall|op: &TransactionOperation| execute.requires((op,)),
        forall|op: &TransactionOperation| execute_locked.requires((op,)),
        forall|b: &[InstalledPackage], a: &[InstalledPackage]| instances.requires((b, a)),
        now.requires(()),
    ensures
        r.error is Some ==> r.receipts@.len() == 0,
        r.error is None ==> forall|i: int|
            0 <= i < r.receipts@.len() ==> (#[trigger] r.receipts@[i]).source_ref@
                == lane.plan.backend_ref@,
        lane_name.ensures((lane,), r.backend),
        r.error is None ==> exists|source: Source|
            lane_source.ensures((lane,), source) && #[trigger] lane_succeeded(
                *lane.plan,
                source,
                before@,
                installed,
                execute,
                execute_locked,
                instances,
                now,
                r.receipts@,
            ),
        r.error matches Some(e) ==> lane_failed(
            *lane.plan,
            r.backend@,
            before@,
            installed,
            execute,
            execute_locked,
            instances,
            e,
        ),
{
    let ask_name = lane_name;
    let name = ask_name(lane);
    let mut k: usize = 0;
    while k < lane.plan.operations.len()
        invariant
            lane_name.ensures((lane,), name),
            forall|op: &TransactionOperation| execute.requires((op,)),
            forall|op: &TransactionOperation| execute_locked.requires((op,)),
            k <= lane.plan.operations@.len(),
            forall|j: int|
                0 <= j < k ==> #[trigger] ran_op(execute, execute_locked, lane.plan.operations@[j]),
        decreases lane.plan.operations.len() - k,
    {
        let op = &lane.plan.operations[k];
        if op_uses_pacman_db(op) {
            let locked = execute_locked(op);
            assert(execute_locked.ensures((op,), locked));
            match locked {
                Ok(Ok(_)) => {
                    proof {
                        assert(ran_locked(execute_locked, *op));
                        assert(ran_op(execute, execute_locked, lane.plan.operations@[k as int]));
                    }
                },
                Ok(Err(e)) => {
                    let r = operation_failed(name, e);
                    proof {
                        assert(op_failed(execute, execute_locked, name@, lane.plan.operations@[k as int], r.error->Some_0));
                    }
                    return r;
                },
                Err(e) => {
                    let r = failed(name, e);
                    proof {
                        assert(op_failed(execute, execute_locked, name@, lane.plan.operations@[k as int], r.error->Some_0));
                    }
                    return r;
                },
            }
        } else {
            let res = execute(op);
            assert(execute.ensures((op,), res));
            match res {
                Ok(()) => {
                    proof {
                        assert(ran_direct(execute, *op));
                        assert(ran_op(execute, execute_locked, lane.plan.operations@[k as int]));
                    }
                },
                Err(e) => {
                    let r = operation_failed(name, e);
                    proof {
                        assert(op_failed(execute, execute_locked, name@, lane.plan.operations@[k as int], r.error->Some_0));
                    }
                    return r;
                },
            }
        }
        k = k + 1;
    }
    let after = match installed() {
        Ok(a) => a,
        Err(e) => {
            proof {
                assert(state_answer(installed, Err(e)));
            }
            return failed(name, e);
        },
    };
    proof {
        assert(state_answer(installed, Ok(after)));
    }
    let bs = before.as_slice();
    let as_ = after.as_slice();
    let answer = instances(bs, as_);
    proof {
        assert(instances.ensures((bs, as_), answer));
        assert(instances_answer(instances, before@, after@, answer));
    }
    let inst = match answer {
        Ok(v) => v,
        Err(e) => {
            return failed(name, e);
        },
    };
    let t = now();
    let ask_source = lane_source;
    let source = ask_source(lane);
    let receipts = receipts_for(lane.plan, source, &inst, t);
    proof {
        assert(now.ensures((), t));
        assert(receipts_of(receipts@, *lane.plan, source, inst@, t));
        assert(lane_succeeded(
            *lane.plan,
            source,
            before@,
            installed,
            execute,
            execute_locked,
            instances,
            now,
            receipts@,
        ));
    }
    BackendReport { backend: name, receipts, error: None }
}

} // verus!
