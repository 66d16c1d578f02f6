//! What training does to a network, as mathematics.
//!
//! A forward pass on an example records the output of every layer.  The error
//! of the last layer is carried backwards through the weights, and gives every
//! layer a step: its gradient scaled by the learning rate.  The network then
//! moves against the steps, either after every example or once per epoch
//! against the sum of the steps of all examples.  The logistic function
//! enters only through the recorded outputs: its slope at an output `a` is
//! `a * (1 - a)`.

use crate::algebra::{is_function, MatrixView};
use crate::nn::{is_forward_pass, lemma_forward_pass_unique, network_wf, LayerView};
use crate::scalar::Scalar;
use vstd::prelude::*;

verus! {

/// How the distance between an output `a` and its label `y` is measured.
#[derive(Clone, Copy, Debug)]
pub enum Loss {
    /// Half the squared difference, `(a - y)^2 / 2`: the error of an output
    /// neuron is `(a - y) * a * (1 - a)`.
    SquaredError,
    /// Cross entropy, `-(y ln a + (1 - y) ln (1 - a))`: the error of an
    /// output neuron is `a - y`.
    CrossEntropy,
}

/// When the network moves.
#[derive(Clone, Copy, Debug)]
pub enum Schedule {
    /// After every example, against the step of that example (stochastic
    /// gradient descent).
    PerExample,
    /// Once per epoch, against the sum of the steps of all examples, each
    /// taken on the network as it was when the epoch began (batch gradient
    /// descent).  Dividing the learning rate by the number of examples
    /// makes this the mean gradient.
    PerEpoch,
}

/// The settings of a training run.
#[derive(Debug)]
pub struct Training<T> {
    /// The learning rate: the factor by which every gradient is scaled.
    pub rate: T,
    /// The loss whose gradient is followed.
    pub loss: Loss,
    /// When the network moves.
    pub schedule: Schedule,
}

/// The input of example `c` of a data set: row `c` without its first cell,
/// as a column.
pub open spec fn case_input<T>(dataset: MatrixView<T>, c: int) -> MatrixView<T> {
    MatrixView { rows: (dataset.cols - 1) as nat, cols: 1, cells: dataset.row(c).skip(1) }
}

/// The label of example `c` of a data set: the last cell of row `c`.
pub open spec fn case_label<T>(dataset: MatrixView<T>, c: int) -> T {
    dataset.row(c).last()
}

/// `acts` has the shapes of a forward pass through `net`: one column per
/// layer boundary, as long as the layer after it takes in, the last as long
/// as the last layer gives out.
pub open spec fn fits_network<T>(net: Seq<LayerView<T>>, acts: Seq<MatrixView<T>>) -> bool {
    &&& acts.len() == net.len() + 1
    &&& forall|l: int| 0 <= l < acts.len() ==> (#[trigger] acts[l]).wf()
    &&& forall|l: int| 0 <= l < net.len() ==> (#[trigger] acts[l]).is_column(net[l].inputs())
    &&& acts.last().is_column(net.last().outputs())
}

/// `steps` holds one step per layer of `net`, each of the layer's shape.
pub open spec fn fits_layers<T>(net: Seq<LayerView<T>>, steps: Seq<LayerView<T>>) -> bool {
    &&& steps.len() == net.len()
    &&& forall|l: int|
        0 <= l < net.len() ==> (#[trigger] steps[l]).wf() && steps[l].same_shape(net[l])
}

/// The error of the output layer: the distance of every output from the
/// label, for squared error weighted by the slope of the logistic function.
pub open spec fn output_error<T: Scalar>(loss: Loss, output: MatrixView<T>, label: T) -> MatrixView<T> {
    let miss = output.minus(MatrixView::filled(output.rows, output.cols, label));
    match loss {
        Loss::SquaredError => miss.hadamard(output.logistic_slope()),
        Loss::CrossEntropy => miss,
    }
}

/// The error of layer `l`: for the last layer the output error, for any
/// other the error of the layer after it, carried back through that layer's
/// weights and weighted by the slope of the logistic function.
pub open spec fn layer_error<T: Scalar>(
    net: Seq<LayerView<T>>,
    acts: Seq<MatrixView<T>>,
    loss: Loss,
    label: T,
    l: int,
) -> MatrixView<T>
    decreases net.len() - l,
{
    if l >= net.len() - 1 {
        output_error(loss, acts[net.len() as int], label)
    } else {
        net[l + 1].weights.transposed().times(layer_error(net, acts, loss, label, l + 1)).hadamard(
            acts[l + 1].logistic_slope(),
        )
    }
}

/// The step of one layer: for the weights `rate` times the error times the
/// transposed input, for the biases `rate` times the error.
pub open spec fn layer_step<T: Scalar>(error: MatrixView<T>, input: MatrixView<T>, rate: T) -> LayerView<T> {
    LayerView { weights: error.times(input.transposed()).scaled(rate), biases: error.scaled(rate) }
}

/// The steps of all layers for one example, given the layer outputs `acts`
/// of the forward pass on that example.
pub open spec fn example_steps<T: Scalar>(
    net: Seq<LayerView<T>>,
    acts: Seq<MatrixView<T>>,
    config: Training<T>,
    label: T,
) -> Seq<LayerView<T>> {
    Seq::new(
        net.len(),
        |l: int| layer_step(layer_error(net, acts, config.loss, label, l), acts[l], config.rate),
    )
}

/// No step at all: for every layer of `net`, zeros of its shape.
pub open spec fn no_steps<T: Scalar>(net: Seq<LayerView<T>>) -> Seq<LayerView<T>> {
    Seq::new(net.len(), |l: int| LayerView::<T>::zeroed(net[l].inputs(), net[l].outputs()))
}

/// Two series of steps added layer by layer.
pub open spec fn summed<T: Scalar>(a: Seq<LayerView<T>>, b: Seq<LayerView<T>>) -> Seq<LayerView<T>> {
    Seq::new(a.len(), |l: int| a[l].plus(b[l]))
}

/// The network after it has moved against `steps`: every layer loses its
/// step.
pub open spec fn moved<T: Scalar>(net: Seq<LayerView<T>>, steps: Seq<LayerView<T>>) -> Seq<LayerView<T>> {
    Seq::new(net.len(), |l: int| net[l].minus(steps[l]))
}

/// `after` is `before` after one step on the example `(input, label)`, for
/// some forward pass that the logistic function `f` allows.
pub open spec fn learns_example<T: Scalar, F: Fn(T) -> T>(
    before: Seq<LayerView<T>>,
    f: F,
    config: Training<T>,
    input: MatrixView<T>,
    label: T,
    after: Seq<LayerView<T>>,
) -> bool {
    exists|acts: Seq<MatrixView<T>>|
        #[trigger] is_forward_pass(before, f, input, acts) && after == moved(
            before,
            example_steps(before, acts, config, label),
        )
}

/// `end` is `start` after `steps` steps, one example each, which take the
/// examples of the data set in order, again and again.
pub open spec fn stepped<T: Scalar, F: Fn(T) -> T>(
    start: Seq<LayerView<T>>,
    f: F,
    config: Training<T>,
    dataset: MatrixView<T>,
    steps: nat,
    end: Seq<LayerView<T>>,
) -> bool
    decreases steps,
{
    if steps == 0 {
        end == start
    } else {
        let c = (steps - 1) % (dataset.rows as int);
        exists|mid: Seq<LayerView<T>>|
            stepped(start, f, config, dataset, (steps - 1) as nat, mid) && #[trigger] learns_example(
                mid,
                f,
                config,
                case_input(dataset, c),
                case_label(dataset, c),
                end,
            )
    }
}

/// `total` is `sum` plus the steps of `net` on the example
/// `(input, label)`, for some forward pass that `f` allows.
pub open spec fn adds_example<T: Scalar, F: Fn(T) -> T>(
    net: Seq<LayerView<T>>,
    f: F,
    config: Training<T>,
    input: MatrixView<T>,
    label: T,
    sum: Seq<LayerView<T>>,
    total: Seq<LayerView<T>>,
) -> bool {
    exists|acts: Seq<MatrixView<T>>|
        #[trigger] is_forward_pass(net, f, input, acts) && total == summed(
            sum,
            example_steps(net, acts, config, label),
        )
}

/// `total` is the sum of the steps of `net` on the first `count` examples
/// of the data set, added up from no step, first example first.
pub open spec fn gathered<T: Scalar, F: Fn(T) -> T>(
    net: Seq<LayerView<T>>,
    f: F,
    config: Training<T>,
    dataset: MatrixView<T>,
    count: nat,
    total: Seq<LayerView<T>>,
) -> bool
    decreases count,
{
    if count == 0 {
        total == no_steps(net)
    } else {
        exists|sum: Seq<LayerView<T>>|
            gathered(net, f, config, dataset, (count - 1) as nat, sum) && #[trigger] adds_example(
                net,
                f,
                config,
                case_input(dataset, count - 1),
                case_label(dataset, count - 1),
                sum,
                total,
            )
    }
}

/// `after` is `before` after one epoch of batch descent: it has moved
/// against the sum of its steps on all examples.
pub open spec fn learns_epoch<T: Scalar, F: Fn(T) -> T>(
    before: Seq<LayerView<T>>,
    f: F,
    config: Training<T>,
    dataset: MatrixView<T>,
    after: Seq<LayerView<T>>,
) -> bool {
    exists|total: Seq<LayerView<T>>|
        #[trigger] gathered(before, f, config, dataset, dataset.rows, total) && after == moved(
            before,
            total,
        )
}

/// `end` is `start` after `epochs` epochs of batch descent.
pub open spec fn batched<T: Scalar, F: Fn(T) -> T>(
    start: Seq<LayerView<T>>,
    f: F,
    config: Training<T>,
    dataset: MatrixView<T>,
    epochs: nat,
    end: Seq<LayerView<T>>,
) -> bool
    decreases epochs,
{
    if epochs == 0 {
        end == start
    } else {
        exists|mid: Seq<LayerView<T>>|
            batched(start, f, config, dataset, (epochs - 1) as nat, mid) && #[trigger] learns_epoch(
                mid,
                f,
                config,
                dataset,
                end,
            )
    }
}

/// `end` is `start` after `epochs` epochs of training on the data set, on
/// the schedule that `config` names.
pub open spec fn trained<T: Scalar, F: Fn(T) -> T>(
    start: Seq<LayerView<T>>,
    f: F,
    config: Training<T>,
    dataset: MatrixView<T>,
    epochs: nat,
    end: Seq<LayerView<T>>,
) -> bool {
    match config.schedule {
        Schedule::PerExample => stepped(start, f, config, dataset, epochs * dataset.rows, end),
        Schedule::PerEpoch => batched(start, f, config, dataset, epochs, end),
    }
}

/// Moving against steps changes no shape: a sound network stays sound.
pub proof fn lemma_moved_wf<T: Scalar>(net: Seq<LayerView<T>>, steps: Seq<LayerView<T>>)
    requires
        network_wf(net),
    ensures
        network_wf(moved(net, steps)),
        moved(net, steps).len() == net.len(),
        forall|l: int| 0 <= l < net.len() ==> (#[trigger] moved(net, steps)[l]).same_shape(net[l]),
{
    let next = moved(net, steps);
    assert forall|l: int| 0 <= l < next.len() implies (#[trigger] next[l]).wf() by {
        assert(net[l].wf());
    }
    assert forall|l: int| 0 <= l < next.len() - 1 implies (#[trigger] next[l + 1]).inputs()
        == next[l].outputs() by {
        assert(net[l + 1].inputs() == net[l].outputs());
    }
}

/// With a logistic function that is a function, a step on an example leads
/// to one network.
pub proof fn lemma_learns_example_unique<T: Scalar, F: Fn(T) -> T>(
    before: Seq<LayerView<T>>,
    f: F,
    config: Training<T>,
    input: MatrixView<T>,
    label: T,
    x: Seq<LayerView<T>>,
    y: Seq<LayerView<T>>,
)
    requires
        is_function(f),
        learns_example(before, f, config, input, label, x),
        learns_example(before, f, config, input, label, y),
    ensures
        x == y,
{
    let a = choose|acts: Seq<MatrixView<T>>| #[trigger]
        is_forward_pass(before, f, input, acts) && x == moved(
            before,
            example_steps(before, acts, config, label),
        );
    let b = choose|acts: Seq<MatrixView<T>>| #[trigger]
        is_forward_pass(before, f, input, acts) && y == moved(
            before,
            example_steps(before, acts, config, label),
        );
    lemma_forward_pass_unique(before, f, input, a, b);
}

/// With a logistic function that is a function, the steps of the first
/// `count` examples have one sum.
pub proof fn lemma_gathered_unique<T: Scalar, F: Fn(T) -> T>(
    net: Seq<LayerView<T>>,
    f: F,
    config: Training<T>,
    dataset: MatrixView<T>,
    count: nat,
    x: Seq<LayerView<T>>,
    y: Seq<LayerView<T>>,
)
    requires
        is_function(f),
        gathered(net, f, config, dataset, count, x),
        gathered(net, f, config, dataset, count, y),
    ensures
        x == y,
    decreases count,
{
    if count > 0 {
        let input = case_input(dataset, count - 1);
        let label = case_label(dataset, count - 1);
        let before = (count - 1) as nat;
        let sx = choose|sum: Seq<LayerView<T>>|
            gathered(net, f, config, dataset, before, sum) && #[trigger] adds_example(
                net,
                f,
                config,
                input,
                label,
                sum,
                x,
            );
        let sy = choose|sum: Seq<LayerView<T>>|
            gathered(net, f, config, dataset, before, sum) && #[trigger] adds_example(
                net,
                f,
                config,
                input,
                label,
                sum,
                y,
            );
        lemma_gathered_unique(net, f, config, dataset, before, sx, sy);
        let a = choose|acts: Seq<MatrixView<T>>| #[trigger]
            is_forward_pass(net, f, input, acts) && x == summed(
                sx,
                example_steps(net, acts, config, label),
            );
        let b = choose|acts: Seq<MatrixView<T>>| #[trigger]
            is_forward_pass(net, f, input, acts) && y == summed(
                sy,
                example_steps(net, acts, config, label),
            );
        lemma_forward_pass_unique(net, f, input, a, b);
    }
}

/// With a logistic function that is a function, training is a function:
/// a network, a data set and a number of epochs lead to one network.
pub proof fn lemma_trained_unique<T: Scalar, F: Fn(T) -> T>(
    start: Seq<LayerView<T>>,
    f: F,
    config: Training<T>,
    dataset: MatrixView<T>,
    epochs: nat,
    x: Seq<LayerView<T>>,
    y: Seq<LayerView<T>>,
)
    requires
        is_function(f),
        trained(start, f, config, dataset, epochs, x),
        trained(start, f, config, dataset, epochs, y),
    ensures
        x == y,
{
    match config.schedule {
        Schedule::PerExample => {
            lemma_stepped_unique(start, f, config, dataset, epochs * dataset.rows, x, y);
        },
        Schedule::PerEpoch => {
            lemma_batched_unique(start, f, config, dataset, epochs, x, y);
        },
    }
}

/// With a logistic function that is a function, `steps` steps lead to one
/// network.
proof fn lemma_stepped_unique<T: Scalar, F: Fn(T) -> T>(
    start: Seq<LayerView<T>>,
    f: F,
    config: Training<T>,
    dataset: MatrixView<T>,
    steps: nat,
    x: Seq<LayerView<T>>,
    y: Seq<LayerView<T>>,
)
    requires
        is_function(f),
        stepped(start, f, config, dataset, steps, x),
        stepped(start, f, config, dataset, steps, y),
    ensures
        x == y,
    decreases steps,
{
    if steps > 0 {
        let c = (steps - 1) % (dataset.rows as int);
        let input = case_input(dataset, c);
        let label = case_label(dataset, c);
        let before = (steps - 1) as nat;
        let mx = choose|mid: Seq<LayerView<T>>|
            stepped(start, f, config, dataset, before, mid) && #[trigger] learns_example(
                mid,
                f,
                config,
                input,
                label,
                x,
            );
        let my = choose|mid: Seq<LayerView<T>>|
            stepped(start, f, config, dataset, before, mid) && #[trigger] learns_example(
                mid,
                f,
                config,
                input,
                label,
                y,
            );
        lemma_stepped_unique(start, f, config, dataset, before, mx, my);
        lemma_learns_example_unique(mx, f, config, input, label, x, y);
    }
}

/// With a logistic function that is a function, `epochs` epochs of batch
/// descent lead to one network.
proof fn lemma_batched_unique<T: Scalar, F: Fn(T) -> T>(
    start: Seq<LayerView<T>>,
    f: F,
    config: Training<T>,
    dataset: MatrixView<T>,
    epochs: nat,
    x: Seq<LayerView<T>>,
    y: Seq<LayerView<T>>,
)
    requires
        is_function(f),
        batched(start, f, config, dataset, epochs, x),
        batched(start, f, config, dataset, epochs, y),
    ensures
        x == y,
    decreases epochs,
{
    if epochs > 0 {
        let before = (epochs - 1) as nat;
        let mx = choose|mid: Seq<LayerView<T>>|
            batched(start, f, config, dataset, before, mid) && #[trigger] learns_epoch(
                mid,
                f,
                config,
                dataset,
                x,
            );
        let my = choose|mid: Seq<LayerView<T>>|
            batched(start, f, config, dataset, before, mid) && #[trigger] learns_epoch(
                mid,
                f,
                config,
                dataset,
                y,
            );
        lemma_batched_unique(start, f, config, dataset, before, mx, my);
        let tx = choose|total: Seq<LayerView<T>>| #[trigger]
            gathered(mx, f, config, dataset, dataset.rows, total) && x == moved(mx, total);
        let ty = choose|total: Seq<LayerView<T>>| #[trigger]
            gathered(my, f, config, dataset, dataset.rows, total) && y == moved(my, total);
        lemma_gathered_unique(mx, f, config, dataset, dataset.rows, tx, ty);
    }
}

/// Training for no epoch leaves the network as it was, and so does
/// training after every example on a data set without examples.
pub proof fn lemma_trained_nothing<T: Scalar, F: Fn(T) -> T>(
    start: Seq<LayerView<T>>,
    f: F,
    config: Training<T>,
    dataset: MatrixView<T>,
    epochs: nat,
    end: Seq<LayerView<T>>,
)
    requires
        trained(start, f, config, dataset, epochs, end),
        epochs == 0 || (config.schedule is PerExample && dataset.rows == 0),
    ensures
        end == start,
{
    assert(epochs * dataset.rows == 0) by (nonlinear_arith)
        requires
            epochs == 0 || dataset.rows == 0,
    ;
}

} // verus!
