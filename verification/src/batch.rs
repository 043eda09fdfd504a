//! What the steps of the protocol do to a list of instances, one after the other.

use vstd::arithmetic::power2::*;
use vstd::prelude::*;

use crate::engine::{log2_spec, FieldEngine, FieldType};
use crate::instance::{InstView, InstanceState};
use crate::poly::copy_vec;
use crate::sumcheck::{SUMCHECK_GKR_DEGREE, SUMCHECK_GKR_SIMD_MPI_DEGREE};

verus! {

/// Lists of lists as sequences of sequences.
pub open spec fn lists<T>(v: Seq<Vec<T>>) -> Seq<Seq<T>> {
    Seq::new(v.len(), |i: int| v[i]@)
}

/// Optional lists as optional sequences.
pub open spec fn optional_lists<T>(v: Seq<Option<Vec<T>>>) -> Seq<Option<Seq<T>>> {
    Seq::new(
        v.len(),
        |i: int|
            match v[i] {
                Some(list) => Some(list@),
                None => None,
            },
    )
}

/// The views of instances.
pub open spec fn views<'a, F: FieldEngine>(v: Seq<InstanceState<'a, F>>) -> Seq<InstView<F>> {
    Seq::new(v.len(), |i: int| v[i]@)
}

/// All instances are well formed.
pub open spec fn all_wf<'a, F: FieldEngine>(v: Seq<InstanceState<'a, F>>) -> bool {
    forall|i: int| 0 <= i < v.len() ==> (#[trigger] v[i]).wf()
}

/// Prepares the first phase.
pub fn prepare_all<'a, F: FieldEngine>(
    instances: &mut Vec<InstanceState<'a, F>>,
)
    requires
        all_wf(old(instances)@),
    ensures
        all_wf(final(instances)@),
        views(final(instances)@) == Seq::new(
            old(instances)@.len(),
            |i: int| old(instances)@[i]@.simd_prepared().mpi_prepared().x_prepared(),
        ),
{
    let ghost start = instances@;
    let n: usize = instances.len();
    for k in 0..n
        invariant
            n == start.len(),
            instances@.len() == start.len(),
            all_wf(start),
            forall|j: int|
                0 <= j < k ==> (#[trigger] instances@[j]).wf() && instances@[j]@
                    == start[j]@.simd_prepared().mpi_prepared().x_prepared(),
            forall|j: int| k <= j < n ==> #[trigger] instances@[j] == start[j],
    {
        assert(start[k as int].wf());
        instances[k].prepare_simd();
        instances[k].prepare_mpi();
        instances[k].prepare_x_vals();
    }
    assert(views(instances@) =~= Seq::new(
        start.len(),
        |i: int| start[i]@.simd_prepared().mpi_prepared().x_prepared(),
    ));
}

/// Binds a wire variable on the host.
pub fn fold_on_host<'a, F: FieldEngine>(
    instances: &mut Vec<InstanceState<'a, F>>,
    first: bool,
    var: usize,
    r: &Vec<F::ChallengeField>,
)
    requires
        all_wf(old(instances)@),
        r@.len() == old(instances)@.len(),
        forall|i: int|
            0 <= i < old(instances)@.len() ==> var < (#[trigger] old(instances)@[i]).input_var_num,
    ensures
        all_wf(final(instances)@),
        views(final(instances)@) == Seq::new(
            old(instances)@.len(),
            |i: int| old(instances)@[i]@.host_folded(var as nat, r@[i]).noted(first, r@[i]),
        ),
{
    let ghost start = instances@;
    let n: usize = instances.len();
    for k in 0..n
        invariant
            n == start.len(),
            instances@.len() == start.len(),
            all_wf(start),
            r@.len() == start.len(),
            forall|i: int|
            0 <= i < start.len() ==> var < (#[trigger] start[i]).input_var_num,
            forall|j: int|
                0 <= j < k ==> (#[trigger] instances@[j]).wf() && instances@[j]@
                    == start[j]@.host_folded(var as nat, r@[j]).noted(first, r@[j]),
            forall|j: int| k <= j < n ==> #[trigger] instances@[j] == start[j],
    {
        assert(start[k as int].wf());
        instances[k].receive_on_host(first, var, r[k]);
    }
    assert(views(instances@) =~= Seq::new(
        start.len(),
        |i: int| start[i]@.host_folded(var as nat, r@[i]).noted(first, r@[i]),
    ));
}

/// Follows a fold on the GPU.
pub fn fold_on_gpu<'a, F: FieldEngine>(
    instances: &mut Vec<InstanceState<'a, F>>,
    first: bool,
    var: usize,
    r: &Vec<F::ChallengeField>,
)
    requires
        all_wf(old(instances)@),
        r@.len() == old(instances)@.len(),
        forall|i: int|
            0 <= i < old(instances)@.len() ==> var < (#[trigger] old(instances)@[i]).input_var_num,
    ensures
        all_wf(final(instances)@),
        views(final(instances)@) == Seq::new(
            old(instances)@.len(),
            |i: int| old(instances)@[i]@.flags_folded(var as nat).noted(first, r@[i]),
        ),
{
    let ghost start = instances@;
    let n: usize = instances.len();
    for k in 0..n
        invariant
            n == start.len(),
            instances@.len() == start.len(),
            all_wf(start),
            r@.len() == start.len(),
            forall|i: int|
            0 <= i < start.len() ==> var < (#[trigger] start[i]).input_var_num,
            forall|j: int|
                0 <= j < k ==> (#[trigger] instances@[j]).wf() && instances@[j]@
                    == start[j]@.flags_folded(var as nat).noted(first, r@[j]),
            forall|j: int| k <= j < n ==> #[trigger] instances@[j] == start[j],
    {
        assert(start[k as int].wf());
        instances[k].receive_on_gpu(first, var, r[k]);
    }
    assert(views(instances@) =~= Seq::new(
        start.len(),
        |i: int| start[i]@.flags_folded(var as nat).noted(first, r@[i]),
    ));
}

/// Makes tables of the lanes.
pub fn prepare_simd_vars<'a, F: FieldEngine>(
    instances: &mut Vec<InstanceState<'a, F>>,
)
    requires
        all_wf(old(instances)@),
    ensures
        all_wf(final(instances)@),
        views(final(instances)@) == Seq::new(
            old(instances)@.len(),
            |i: int| old(instances)@[i]@.simd_vars_prepared(),
        ),
{
    let ghost start = instances@;
    let n: usize = instances.len();
    for k in 0..n
        invariant
            n == start.len(),
            instances@.len() == start.len(),
            all_wf(start),
            forall|j: int|
                0 <= j < k ==> (#[trigger] instances@[j]).wf() && instances@[j]@
                    == start[j]@.simd_vars_prepared(),
            forall|j: int| k <= j < n ==> #[trigger] instances@[j] == start[j],
    {
        assert(start[k as int].wf());
        instances[k].prepare_simd_var_vals();
    }
    assert(views(instances@) =~= Seq::new(
        start.len(),
        |i: int| start[i]@.simd_vars_prepared(),
    ));
}

/// Binds a lane variable.
pub fn receive_simd<'a, F: FieldEngine>(
    instances: &mut Vec<InstanceState<'a, F>>,
    var: usize,
    r: &Vec<F::ChallengeField>,
)
    requires
        all_wf(old(instances)@),
        r@.len() == old(instances)@.len(),
        var < log2_spec(F::pack_size_spec()),
    ensures
        all_wf(final(instances)@),
        views(final(instances)@) == Seq::new(
            old(instances)@.len(),
            |i: int| old(instances)@[i]@.simd_received(var as nat, r@[i]),
        ),
{
    let ghost start = instances@;
    let n: usize = instances.len();
    for k in 0..n
        invariant
            n == start.len(),
            instances@.len() == start.len(),
            all_wf(start),
            r@.len() == start.len(),
            var < log2_spec(F::pack_size_spec()),
            forall|j: int|
                0 <= j < k ==> (#[trigger] instances@[j]).wf() && instances@[j]@
                    == start[j]@.simd_received(var as nat, r@[j]),
            forall|j: int| k <= j < n ==> #[trigger] instances@[j] == start[j],
    {
        assert(start[k as int].wf());
        instances[k].receive_r_simd_var(var, r[k]);
    }
    assert(views(instances@) =~= Seq::new(
        start.len(),
        |i: int| start[i]@.simd_received(var as nat, r@[i]),
    ));
}

/// Binds a process variable.
pub fn receive_mpi<'a, F: FieldEngine>(
    instances: &mut Vec<InstanceState<'a, F>>,
    var: usize,
    r: &Vec<F::ChallengeField>,
)
    requires
        all_wf(old(instances)@),
        r@.len() == old(instances)@.len(),
        forall|i: int|
            0 <= i < old(instances)@.len() ==> var < (#[trigger] old(
                instances,
            )@[i]).mpi_var_helper.var_num,
    ensures
        all_wf(final(instances)@),
        views(final(instances)@) == Seq::new(
            old(instances)@.len(),
            |i: int| old(instances)@[i]@.mpi_received(var as nat, r@[i]),
        ),
{
    let ghost start = instances@;
    let n: usize = instances.len();
    for k in 0..n
        invariant
            n == start.len(),
            instances@.len() == start.len(),
            all_wf(start),
            r@.len() == start.len(),
            forall|i: int|
            0 <= i < start.len() ==> var < (#[trigger] start[i]).mpi_var_helper.var_num,
            forall|j: int|
                0 <= j < k ==> (#[trigger] instances@[j]).wf() && instances@[j]@
                    == start[j]@.mpi_received(var as nat, r@[j]),
            forall|j: int| k <= j < n ==> #[trigger] instances@[j] == start[j],
    {
        assert(start[k as int].wf());
        instances[k].receive_r_mpi_var(var, r[k]);
    }
    assert(views(instances@) =~= Seq::new(
        start.len(),
        |i: int| start[i]@.mpi_received(var as nat, r@[i]),
    ));
}

/// Takes in the processes' shares.
pub fn prepare_mpi_vars<'a, F: FieldEngine>(
    instances: &mut Vec<InstanceState<'a, F>>,
    v: &Vec<Vec<F::ChallengeField>>,
    hg: &Vec<Vec<F::ChallengeField>>,
)
    requires
        all_wf(old(instances)@),
        v@.len() == old(instances)@.len(),
        hg@.len() == old(instances)@.len(),
        forall|i: int|
            0 <= i < old(instances)@.len() ==> pow2((#[trigger] old(instances)@[i])@.mpi_var_num)
                <= v@[i]@.len(),
        forall|i: int|
            0 <= i < old(instances)@.len() ==> pow2((#[trigger] old(instances)@[i])@.mpi_var_num)
                <= hg@[i]@.len(),
    ensures
        all_wf(final(instances)@),
        views(final(instances)@) == Seq::new(
            old(instances)@.len(),
            |i: int| old(instances)@[i]@.gathered(v@[i]@, hg@[i]@),
        ),
{
    let ghost start = instances@;
    let n: usize = instances.len();
    for k in 0..n
        invariant
            n == start.len(),
            instances@.len() == start.len(),
            all_wf(start),
            v@.len() == start.len(),
            hg@.len() == start.len(),
            forall|i: int|
            0 <= i < start.len() ==> pow2((#[trigger] start[i])@.mpi_var_num)
                <= v@[i]@.len(),
            forall|i: int|
            0 <= i < start.len() ==> pow2((#[trigger] start[i])@.mpi_var_num)
                <= hg@[i]@.len(),
            forall|j: int|
                0 <= j < k ==> (#[trigger] instances@[j]).wf() && instances@[j]@
                    == start[j]@.gathered(v@[j]@, hg@[j]@),
            forall|j: int| k <= j < n ==> #[trigger] instances@[j] == start[j],
    {
        assert(start[k as int].wf());
        instances[k].prepare_mpi_var_vals(copy_vec(&v[k]), copy_vec(&hg[k]));
    }
    assert(views(instances@) =~= Seq::new(
        start.len(),
        |i: int| start[i]@.gathered(v@[i]@, hg@[i]@),
    ));
}

/// Prepares the second phase.
pub fn prepare_second<'a, F: FieldEngine>(
    instances: &mut Vec<InstanceState<'a, F>>,
    v: &Vec<F::ChallengeField>,
)
    requires
        all_wf(old(instances)@),
        v@.len() == old(instances)@.len(),
        forall|i: int|
            0 <= i < old(instances)@.len() ==> {
                let inst = (#[trigger] old(instances)@[i])@;
                &&& inst.rx.len() == inst.input_var_num()
                &&& inst.r_simd_var.len() == inst.simd_var_num()
                &&& inst.r_mpi_var.len() == inst.mpi_var_num
            },
    ensures
        all_wf(final(instances)@),
        views(final(instances)@) == Seq::new(
            old(instances)@.len(),
            |i: int| old(instances)@[i]@.y_prepared(v@[i]),
        ),
{
    let ghost start = instances@;
    let n: usize = instances.len();
    for k in 0..n
        invariant
            n == start.len(),
            instances@.len() == start.len(),
            all_wf(start),
            v@.len() == start.len(),
            forall|i: int|
            0 <= i < start.len() ==> {
                let inst = (#[trigger] start[i])@;
                &&& inst.rx.len() == inst.input_var_num()
                &&& inst.r_simd_var.len() == inst.simd_var_num()
                &&& inst.r_mpi_var.len() == inst.mpi_var_num
            },
            forall|j: int|
                0 <= j < k ==> (#[trigger] instances@[j]).wf() && instances@[j]@
                    == start[j]@.y_prepared(v@[j]),
            forall|j: int| k <= j < n ==> #[trigger] instances@[j] == start[j],
    {
        assert(start[k as int].wf());
        instances[k].prepare_y_vals(v[k]);
    }
    assert(views(instances@) =~= Seq::new(
        start.len(),
        |i: int| start[i]@.y_prepared(v@[i]),
    ));
}

/// Takes the tables back from the GPU, or makes them where a copy failed.
pub fn take_tables<'a, F: FieldEngine>(
    instances: &mut Vec<InstanceState<'a, F>>,
    first: bool,
    var: usize,
    tables: &Vec<Option<Vec<u32>>>,
)
    requires
        all_wf(old(instances)@),
        F::field_type_spec() == FieldType::M31x16,
        tables@.len() == 2 * old(instances)@.len(),
        forall|i: int|
            0 <= i < old(instances)@.len() ==> var < (#[trigger] old(instances)@[i]).input_var_num
                && var <= old(instances)@[i]@.phase_challenges(first).len(),
        forall|j: int|
            0 <= j < tables@.len() && (#[trigger] tables@[j]) is Some ==> tables@[j]->0@.len()
                == 2 * old(instances)@[j / 2]@.eval_size(var as nat) * 3 * F::pack_size_spec(),
    ensures
        all_wf(final(instances)@),
        views(final(instances)@) == Seq::new(
            old(instances)@.len(),
            |i: int|
                old(instances)@[i]@.fetched(
                    first,
                    var as nat,
                    optional_lists(tables@)[2 * i],
                    optional_lists(tables@)[2 * i + 1],
                ),
        ),
{
    let ghost start = instances@;
    let n: usize = instances.len();
    let limit: usize = tables.len();
    for k in 0..n
        invariant
            n == start.len(),
            limit == tables@.len(),
            instances@.len() == start.len(),
            all_wf(start),
            F::field_type_spec() == FieldType::M31x16,
            tables@.len() == 2 * start.len(),
            forall|i: int|
                0 <= i < start.len() ==> var < (#[trigger] start[i]).input_var_num && var
                    <= start[i]@.phase_challenges(first).len(),
            forall|j: int|
                0 <= j < tables@.len() && (#[trigger] tables@[j]) is Some ==> tables@[j]->0@.len()
                    == 2 * start[j / 2]@.eval_size(var as nat) * 3 * F::pack_size_spec(),
            forall|j: int|
                0 <= j < k ==> (#[trigger] instances@[j]).wf() && instances@[j]@
                    == start[j]@.fetched(
                    first,
                    var as nat,
                    optional_lists(tables@)[2 * j],
                    optional_lists(tables@)[2 * j + 1],
                ),
            forall|j: int| k <= j < n ==> #[trigger] instances@[j] == start[j],
    {
        assert(start[k as int].wf());
        let wires = &tables[2 * k];
        let coefs = &tables[2 * k + 1];
        if let (Some(wires), Some(coefs)) = (wires, coefs) {
            let room: usize = instances[k].sp.v_evals.len();
            let num: usize = 2 * instances[k].xy_helper.eval_size(var);
            instances[k].take_download(true, wires, num);
            instances[k].take_download(false, coefs, num);
        } else {
            instances[k].recover(first, var);
        }
    }
    assert(views(instances@) =~= Seq::new(
        start.len(),
        |i: int|
            start[i]@.fetched(
                first,
                var as nat,
                optional_lists(tables@)[2 * i],
                optional_lists(tables@)[2 * i + 1],
            ),
    ));
}

/// Makes the host's tables before a round of a phase whose rounds so far the GPU has made.
pub fn recover_all<'a, F: FieldEngine>(
    instances: &mut Vec<InstanceState<'a, F>>,
    first: bool,
    var: usize,
)
    requires
        all_wf(old(instances)@),
        forall|i: int|
            0 <= i < old(instances)@.len() ==> var <= (#[trigger] old(instances)@[i]).input_var_num
                && var <= old(instances)@[i]@.phase_challenges(first).len(),
    ensures
        all_wf(final(instances)@),
        views(final(instances)@) == Seq::new(
            old(instances)@.len(),
            |i: int| old(instances)@[i]@.recovered(first, var as nat),
        ),
{
    let ghost start = instances@;
    let n: usize = instances.len();
    for k in 0..n
        invariant
            n == start.len(),
            instances@.len() == start.len(),
            all_wf(start),
            forall|i: int|
                0 <= i < start.len() ==> var <= (#[trigger] start[i]).input_var_num && var
                    <= start[i]@.phase_challenges(first).len(),
            forall|j: int|
                0 <= j < k ==> (#[trigger] instances@[j]).wf() && instances@[j]@
                    == start[j]@.recovered(first, var as nat),
            forall|j: int| k <= j < n ==> #[trigger] instances@[j] == start[j],
    {
        assert(start[k as int].wf());
        instances[k].recover(first, var);
    }
    assert(views(instances@) =~= Seq::new(
        start.len(),
        |i: int| start[i]@.recovered(first, var as nat),
    ));
}

/// Evaluates a round on the host.
pub fn host_values<'a, F: FieldEngine>(
    instances: &Vec<InstanceState<'a, F>>,
    var: usize,
) -> (out: Vec<Vec<F::ChallengeField>>)
    requires
        all_wf(instances@),
        forall|i: int|
            0 <= i < instances@.len() ==> var < (#[trigger] instances@[i]).input_var_num,
    ensures
        lists(out@) == Seq::new(
            instances@.len(),
            |i: int| instances@[i]@.local(instances@[i]@.host_values(var as nat)),
        ),
{
    let mut out: Vec<Vec<F::ChallengeField>> = Vec::new();
    for k in 0..instances.len()
        invariant
            all_wf(instances@),
            forall|i: int|
            0 <= i < instances@.len() ==> var < (#[trigger] instances@[i]).input_var_num,
            out@.len() == k,
            forall|j: int|
                0 <= j < k ==> (#[trigger] out@[j])@ == instances@[j]@.local(
                    instances@[j]@.host_values(var as nat),
                ),
    {
        assert(instances@[k as int].wf());
        out.push(instances[k].local_evals(var, SUMCHECK_GKR_DEGREE));
    }
    assert(lists(out@) =~= Seq::new(
        instances@.len(),
        |i: int| instances@[i]@.local(instances@[i]@.host_values(var as nat)),
    ));
    out
}

/// Evaluates a round on the host in a phase whose rounds so far the GPU has made.
pub fn spare_values<'a, F: FieldEngine>(
    instances: &Vec<InstanceState<'a, F>>,
    first: bool,
    var: usize,
) -> (out: Vec<Vec<F::ChallengeField>>)
    requires
        all_wf(instances@),
        forall|i: int|
            0 <= i < instances@.len() ==> var < (#[trigger] instances@[i]).input_var_num && var
                <= instances@[i]@.phase_challenges(first).len(),
    ensures
        lists(out@) == Seq::new(
            instances@.len(),
            |i: int|
                {
                    let host = instances@[i]@.recovered(first, var as nat);
                    host.local(host.host_values(var as nat))
                },
        ),
{
    let mut out: Vec<Vec<F::ChallengeField>> = Vec::new();
    for k in 0..instances.len()
        invariant
            all_wf(instances@),
            forall|i: int|
                0 <= i < instances@.len() ==> var < (#[trigger] instances@[i]).input_var_num && var
                    <= instances@[i]@.phase_challenges(first).len(),
            out@.len() == k,
            forall|j: int|
                0 <= j < k ==> {
                    let host = instances@[j]@.recovered(first, var as nat);
                    (#[trigger] out@[j])@ == host.local(host.host_values(var as nat))
                },
    {
        assert(instances@[k as int].wf());
        out.push(instances[k].spare_evals(first, var, SUMCHECK_GKR_DEGREE));
    }
    assert(lists(out@) =~= Seq::new(
        instances@.len(),
        |i: int|
            {
                let host = instances@[i]@.recovered(first, var as nat);
                host.local(host.host_values(var as nat))
            },
    ));
    out
}

/// Reads a round off the GPU's results.
pub fn gpu_values<'a, F: FieldEngine>(
    instances: &Vec<InstanceState<'a, F>>,
    results: &Vec<[[u32; 9]; 16]>,
) -> (out: Vec<Vec<F::ChallengeField>>)
    requires
        all_wf(instances@),
        F::field_type_spec() == FieldType::M31x16,
        results@.len() == instances@.len(),
    ensures
        lists(out@) == Seq::new(
            instances@.len(),
            |i: int| instances@[i]@.local(InstView::<F>::gpu_values(results@[i])),
        ),
{
    let mut out: Vec<Vec<F::ChallengeField>> = Vec::new();
    for k in 0..instances.len()
        invariant
            all_wf(instances@),
            F::field_type_spec() == FieldType::M31x16,
            results@.len() == instances@.len(),
            out@.len() == k,
            forall|j: int|
                0 <= j < k ==> (#[trigger] out@[j])@ == instances@[j]@.local(
                    InstView::<F>::gpu_values(results@[j]),
                ),
    {
        assert(instances@[k as int].wf());
        out.push(instances[k].local_evals_from_gpu(&results[k]));
    }
    assert(lists(out@) =~= Seq::new(
        instances@.len(),
        |i: int| instances@[i]@.local(InstView::<F>::gpu_values(results@[i])),
    ));
    out
}

/// Scales the values of the second phase.
pub fn scale_all<'a, F: FieldEngine>(
    instances: &Vec<InstanceState<'a, F>>,
    values: &Vec<Vec<F::ChallengeField>>,
) -> (out: Vec<Vec<F::ChallengeField>>)
    requires
        all_wf(instances@),
        values@.len() == instances@.len(),
    ensures
        lists(out@) == Seq::new(instances@.len(), |i: int| instances@[i]@.scaled(values@[i]@)),
{
    let mut out: Vec<Vec<F::ChallengeField>> = Vec::new();
    for k in 0..instances.len()
        invariant
            all_wf(instances@),
            values@.len() == instances@.len(),
            out@.len() == k,
            forall|j: int|
                0 <= j < k ==> (#[trigger] out@[j])@ == instances@[j]@.scaled(values@[j]@),
    {
        assert(instances@[k as int].wf());
        out.push(instances[k].scale(&values[k]));
    }
    assert(lists(out@) =~= Seq::new(instances@.len(), |i: int| instances@[i]@.scaled(values@[i]@)));
    out
}

/// Evaluates a round over the lane variables.
pub fn simd_values<'a, F: FieldEngine>(
    instances: &Vec<InstanceState<'a, F>>,
    var: usize,
) -> (out: Vec<Vec<F::ChallengeField>>)
    requires
        all_wf(instances@),
        var < log2_spec(F::pack_size_spec()),
    ensures
        lists(out@) == Seq::new(instances@.len(), |i: int| instances@[i]@.simd_values(var as nat)),
{
    let mut out: Vec<Vec<F::ChallengeField>> = Vec::new();
    for k in 0..instances.len()
        invariant
            all_wf(instances@),
            var < log2_spec(F::pack_size_spec()),
            out@.len() == k,
            forall|j: int|
                0 <= j < k ==> (#[trigger] out@[j])@ == instances@[j]@.simd_values(var as nat),
    {
        assert(instances@[k as int].wf());
        out.push(instances[k].local_simd_evals(var, SUMCHECK_GKR_SIMD_MPI_DEGREE));
    }
    assert(lists(out@) =~= Seq::new(
        instances@.len(),
        |i: int| instances@[i]@.simd_values(var as nat),
    ));
    out
}

/// Evaluates a round over the process variables.
pub fn mpi_values<'a, F: FieldEngine>(
    instances: &Vec<InstanceState<'a, F>>,
    var: usize,
) -> (out: Vec<Vec<F::ChallengeField>>)
    requires
        all_wf(instances@),
        forall|i: int|
            0 <= i < instances@.len() ==> var < (#[trigger] instances@[i]).mpi_var_helper.var_num,
    ensures
        lists(out@) == Seq::new(instances@.len(), |i: int| instances@[i]@.mpi_values(var as nat)),
{
    let mut out: Vec<Vec<F::ChallengeField>> = Vec::new();
    for k in 0..instances.len()
        invariant
            all_wf(instances@),
            forall|i: int|
            0 <= i < instances@.len() ==> var < (#[trigger] instances@[i]).mpi_var_helper.var_num,
            out@.len() == k,
            forall|j: int|
                0 <= j < k ==> (#[trigger] out@[j])@ == instances@[j]@.mpi_values(var as nat),
    {
        assert(instances@[k as int].wf());
        out.push(instances[k].poly_evals_at_r_mpi_var(var, SUMCHECK_GKR_SIMD_MPI_DEGREE));
    }
    assert(lists(out@) =~= Seq::new(
        instances@.len(),
        |i: int| instances@[i]@.mpi_values(var as nat),
    ));
    out
}

/// The weights of the processes.
pub fn mpi_coefs<'a, F: FieldEngine>(
    instances: &Vec<InstanceState<'a, F>>,
) -> (out: Vec<Vec<F::ChallengeField>>)
    requires
        all_wf(instances@),
    ensures
        lists(out@) == Seq::new(instances@.len(), |i: int| instances@[i]@.process_weights()),
{
    let mut out: Vec<Vec<F::ChallengeField>> = Vec::new();
    for k in 0..instances.len()
        invariant
            all_wf(instances@),
            out@.len() == k,
            forall|j: int| 0 <= j < k ==> (#[trigger] out@[j])@ == instances@[j]@.process_weights(),
    {
        assert(instances@[k as int].wf());
        out.push(instances[k].mpi_coefs());
    }
    assert(lists(out@) =~= Seq::new(instances@.len(), |i: int| instances@[i]@.process_weights()));
    out
}

/// The claims at the first input wires' challenges.
pub fn vx_claim_per_instance<'a, F: FieldEngine>(
    instances: &Vec<InstanceState<'a, F>>,
) -> (out: Vec<F::ChallengeField>)
    requires
        all_wf(instances@),
    ensures
        out@ == Seq::new(instances@.len(), |i: int| instances@[i]@.vx()),
{
    let mut out: Vec<F::ChallengeField> = Vec::new();
    for k in 0..instances.len()
        invariant
            all_wf(instances@),
            out@.len() == k,
            forall|j: int| 0 <= j < k ==> #[trigger] out@[j] == instances@[j]@.vx(),
    {
        assert(instances@[k as int].wf());
        out.push(instances[k].vx_claim());
    }
    assert(out@ =~= Seq::new(instances@.len(), |i: int| instances@[i]@.vx()));
    out
}

/// The shares of the wire tables.
pub fn v_shares<'a, F: FieldEngine>(
    instances: &Vec<InstanceState<'a, F>>,
) -> (out: Vec<F::ChallengeField>)
    requires
        all_wf(instances@),
    ensures
        out@ == Seq::new(instances@.len(), |i: int| instances@[i]@.v_share()),
{
    let mut out: Vec<F::ChallengeField> = Vec::new();
    for k in 0..instances.len()
        invariant
            all_wf(instances@),
            out@.len() == k,
            forall|j: int| 0 <= j < k ==> #[trigger] out@[j] == instances@[j]@.v_share(),
    {
        assert(instances@[k as int].wf());
        out.push(instances[k].mpi_shares().0);
    }
    assert(out@ =~= Seq::new(instances@.len(), |i: int| instances@[i]@.v_share()));
    out
}

/// The shares of the coefficient tables.
pub fn hg_shares<'a, F: FieldEngine>(
    instances: &Vec<InstanceState<'a, F>>,
) -> (out: Vec<F::ChallengeField>)
    requires
        all_wf(instances@),
    ensures
        out@ == Seq::new(instances@.len(), |i: int| instances@[i]@.hg_share()),
{
    let mut out: Vec<F::ChallengeField> = Vec::new();
    for k in 0..instances.len()
        invariant
            all_wf(instances@),
            out@.len() == k,
            forall|j: int| 0 <= j < k ==> #[trigger] out@[j] == instances@[j]@.hg_share(),
    {
        assert(instances@[k as int].wf());
        out.push(instances[k].mpi_shares().1);
    }
    assert(out@ =~= Seq::new(instances@.len(), |i: int| instances@[i]@.hg_share()));
    out
}


/// This process's shares of the claims at the second input wires' challenges.
pub fn vy_shares<'a, F: FieldEngine>(instances: &Vec<InstanceState<'a, F>>) -> (out: Vec<
    Vec<F::ChallengeField>,
>)
    requires
        all_wf(instances@),
    ensures
        lists(out@) == Seq::new(instances@.len(), |i: int| seq![instances@[i]@.vy_share()]),
{
    let mut out: Vec<Vec<F::ChallengeField>> = Vec::new();
    for k in 0..instances.len()
        invariant
            all_wf(instances@),
            out@.len() == k,
            forall|j: int| 0 <= j < k ==> (#[trigger] out@[j])@ == seq![instances@[j]@.vy_share()],
    {
        assert(instances@[k as int].wf());
        let share: Vec<F::ChallengeField> = vec![instances[k].local_vy_claim()];
        assert(share@ == seq![instances@[k as int]@.vy_share()]);
        out.push(share);
    }
    assert(lists(out@) =~= Seq::new(
        instances@.len(),
        |i: int| seq![instances@[i]@.vy_share()],
    ));
    out
}

} // verus!
