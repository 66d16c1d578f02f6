//! Layers of weights and biases, and the feedforward network made of them.

use crate::algebra::{
    applies, drawn_from, is_function, is_sequence, lemma_applies_unique, lemma_dot_of_zeros,
    lemma_drawn_from_unique, lemma_flat_index, takes,
    lemma_times_at, lemma_zeroed, MatrixView,
};
use crate::matrix::{views, Matrix, MatrixError};
use crate::scalar::Scalar;
use crate::text::{
    can_write_layer, can_write_network, layer_text, lemma_network_text_prefix, network_text,
    renders_layer, renders_network, shown_layers,
};
use crate::training::{
    adds_example, batched, case_input, case_label, example_steps, fits_layers, fits_network,
    gathered, layer_error, layer_step, learns_epoch, learns_example, lemma_moved_wf, moved,
    no_steps, output_error, stepped, summed, trained, Loss, Schedule, Training,
};
use vstd::prelude::*;

verus! {

/// A layer as a value: a weight matrix with one row per neuron and one column
/// per input, and a bias column with one row per neuron.
pub struct LayerView<T> {
    pub weights: MatrixView<T>,
    pub biases: MatrixView<T>,
}

impl<T> LayerView<T> {
    /// How many values the layer takes in.
    pub open spec fn inputs(self) -> nat {
        self.weights.cols
    }

    /// How many values the layer gives out: its number of neurons.
    pub open spec fn outputs(self) -> nat {
        self.weights.rows
    }

    /// Both matrices are well formed and not empty, and the biases are a
    /// column with one row per row of weights.
    pub open spec fn wf(self) -> bool {
        &&& self.weights.wf()
        &&& self.biases.wf()
        &&& self.weights.rows > 0
        &&& self.weights.cols > 0
        &&& self.biases.is_column(self.weights.rows)
    }

    /// The other layer has matrices of the same shapes.
    pub open spec fn same_shape(self, other: Self) -> bool {
        self.weights.same_shape(other.weights) && self.biases.same_shape(other.biases)
    }
}

impl<T: Scalar> LayerView<T> {
    /// Weights added to weights, biases to biases.
    pub open spec fn plus(self, other: Self) -> Self {
        LayerView {
            weights: self.weights.plus(other.weights),
            biases: self.biases.plus(other.biases),
        }
    }

    /// Weights taken from weights, biases from biases.
    pub open spec fn minus(self, other: Self) -> Self {
        LayerView {
            weights: self.weights.minus(other.weights),
            biases: self.biases.minus(other.biases),
        }
    }

    /// The layer of the given sizes with all weights and biases zero.
    pub open spec fn zeroed(inputs: nat, outputs: nat) -> Self {
        LayerView {
            weights: MatrixView::zeroed(outputs, inputs),
            biases: MatrixView::zeroed(outputs, 1),
        }
    }

    /// What reaches the neurons before the logistic function is applied:
    /// `weights * input + biases`.
    pub open spec fn excitation(self, input: MatrixView<T>) -> MatrixView<T> {
        self.weights.times(input).plus(self.biases)
    }
}

/// A network is sound when it has at least one layer, every layer is well
/// formed, and each layer takes in as many values as the one before it gives
/// out.
pub open spec fn network_wf<T>(net: Seq<LayerView<T>>) -> bool {
    &&& net.len() >= 1
    &&& forall|l: int| 0 <= l < net.len() ==> (#[trigger] net[l]).wf()
    &&& forall|l: int| 0 <= l < net.len() - 1 ==> (#[trigger] net[l + 1]).inputs() == net[l].outputs()
}

/// The values of a sequence of layers, in the same order.
pub open spec fn layer_views<T>(layers: Seq<Layer<T>>) -> Seq<LayerView<T>> {
    Seq::new(layers.len(), |l: int| layers[l]@)
}

/// `acts` records a forward pass of `net` on `input`: it starts with the
/// input, and each later entry is what `f` may make, cell by cell, of the
/// excitation of the layer before it.
pub open spec fn is_forward_pass<T: Scalar, F: Fn(T) -> T>(
    net: Seq<LayerView<T>>,
    f: F,
    input: MatrixView<T>,
    acts: Seq<MatrixView<T>>,
) -> bool {
    &&& acts.len() == net.len() + 1
    &&& acts[0] == input
    &&& forall|l: int|
        0 <= l < net.len() ==> applies(f, net[l].excitation(acts[l]), #[trigger] acts[l + 1])
}

/// `output` is what some forward pass of `net` on `input` ends with.
pub open spec fn infers<T: Scalar, F: Fn(T) -> T>(
    net: Seq<LayerView<T>>,
    f: F,
    input: MatrixView<T>,
    output: MatrixView<T>,
) -> bool {
    exists|acts: Seq<MatrixView<T>>| #[trigger] is_forward_pass(net, f, input, acts) && acts.last() == output
}

/// With a logistic function that is a function, a network and an input have
/// one forward pass.
pub proof fn lemma_forward_pass_unique<T: Scalar, F: Fn(T) -> T>(
    net: Seq<LayerView<T>>,
    f: F,
    input: MatrixView<T>,
    a: Seq<MatrixView<T>>,
    b: Seq<MatrixView<T>>,
)
    requires
        is_function(f),
        is_forward_pass(net, f, input, a),
        is_forward_pass(net, f, input, b),
    ensures
        a == b,
{
    lemma_forward_pass_prefix(net, f, input, a, b, net.len() as int);
    assert(a =~= b);
}

/// Two forward passes agree on their first `upto + 1` entries.
proof fn lemma_forward_pass_prefix<T: Scalar, F: Fn(T) -> T>(
    net: Seq<LayerView<T>>,
    f: F,
    input: MatrixView<T>,
    a: Seq<MatrixView<T>>,
    b: Seq<MatrixView<T>>,
    upto: int,
)
    requires
        is_function(f),
        is_forward_pass(net, f, input, a),
        is_forward_pass(net, f, input, b),
        0 <= upto <= net.len(),
    ensures
        forall|l: int| 0 <= l <= upto ==> a[l] == b[l],
    decreases upto,
{
    if upto > 0 {
        lemma_forward_pass_prefix(net, f, input, a, b, upto - 1);
        let l = upto - 1;
        assert(a[l] == b[l]);
        assert(applies(f, net[l].excitation(a[l]), a[l + 1]));
        assert(applies(f, net[l].excitation(b[l]), b[l + 1]));
        lemma_applies_unique(f, net[l].excitation(a[l]), a[l + 1], b[l + 1]);
    }
}

/// With a logistic function that is a function, inference is a function:
/// a network gives one output for an input.
pub proof fn lemma_infers_unique<T: Scalar, F: Fn(T) -> T>(
    net: Seq<LayerView<T>>,
    f: F,
    input: MatrixView<T>,
    x: MatrixView<T>,
    y: MatrixView<T>,
)
    requires
        is_function(f),
        infers(net, f, input, x),
        infers(net, f, input, y),
    ensures
        x == y,
{
    let a = choose|acts: Seq<MatrixView<T>>| #[trigger]
        is_forward_pass(net, f, input, acts) && acts.last() == x;
    let b = choose|acts: Seq<MatrixView<T>>| #[trigger]
        is_forward_pass(net, f, input, acts) && acts.last() == y;
    lemma_forward_pass_unique(net, f, input, a, b);
}

/// A layer whose weights and biases are all zero excites every neuron with
/// zero, and so gives out, for every neuron, a value that the logistic
/// function may return for zero.  This holds for every input column on which
/// a sum that starts at zero stays at zero: adding zero times an input cell
/// to zero gives zero, and zero plus zero is zero.
pub proof fn lemma_zero_layer<T: Scalar, F: Fn(T) -> T>(
    inputs: nat,
    outputs: nat,
    input: MatrixView<T>,
    f: F,
    out: MatrixView<T>,
)
    requires
        input.wf(),
        input.is_column(inputs),
        applies(f, LayerView::<T>::zeroed(inputs, outputs).excitation(input), out),
        T::zero_value().sum(T::zero_value()) == T::zero_value(),
        forall|p: int|
            0 <= p < input.cells.len() ==> T::zero_value().sum(
                T::zero_value().product(#[trigger] input.cells[p]),
            ) == T::zero_value(),
    ensures
        LayerView::<T>::zeroed(inputs, outputs).excitation(input) == MatrixView::<T>::zeroed(
            outputs,
            1,
        ),
        out.is_column(outputs),
        out.cells.len() == outputs,
        forall|p: int| 0 <= p < outputs ==> call_ensures(f, (T::zero_value(),), #[trigger] out.cells[p]),
{
    let layer = LayerView::<T>::zeroed(inputs, outputs);
    let product = layer.weights.times(input);
    let excited = layer.excitation(input);
    lemma_zeroed::<T>(outputs, inputs);
    lemma_zeroed::<T>(outputs, 1);
    assert forall|p: int| 0 <= p < outputs implies #[trigger] product.cells[p]
        == T::zero_value() by {
        lemma_times_at(layer.weights, input, p, 0);
        let row = layer.weights.row(p);
        let col = input.col(0);
        assert forall|k: int| 0 <= k < row.len() implies #[trigger] row[k] == T::zero_value() by {
            assert(row[k] == layer.weights.at(p, k));
        }
        assert forall|k: int| 0 <= k < row.len() implies T::zero_value().sum(
            T::zero_value().product(#[trigger] col[k]),
        ) == T::zero_value() by {
            assert(col[k] == input.cells[k]);
        }
        lemma_dot_of_zeros(row, col);
        assert(product.at(p, 0) == product.cells[p]);
    }
    assert(excited.cells =~= MatrixView::<T>::zeroed(outputs, 1).cells);
    assert forall|p: int| 0 <= p < outputs implies call_ensures(
        f,
        (T::zero_value(),),
        #[trigger] out.cells[p],
    ) by {
        assert(excited.cells[p] == T::zero_value());
    }
}

/// Over the integers the zero layer needs no condition: whatever comes in,
/// every neuron gives out a value that the logistic function may return for
/// zero.
pub proof fn lemma_zero_layer_of_integers<F: Fn(i64) -> i64>(
    inputs: nat,
    outputs: nat,
    input: MatrixView<i64>,
    f: F,
    out: MatrixView<i64>,
)
    requires
        input.wf(),
        input.is_column(inputs),
        applies(f, LayerView::<i64>::zeroed(inputs, outputs).excitation(input), out),
    ensures
        out.is_column(outputs),
        out.cells.len() == outputs,
        forall|p: int| 0 <= p < outputs ==> call_ensures(f, (0i64,), #[trigger] out.cells[p]),
{
    assert forall|p: int| 0 <= p < input.cells.len() implies <i64 as Scalar>::zero_value().sum(
        <i64 as Scalar>::zero_value().product(#[trigger] input.cells[p]),
    ) == <i64 as Scalar>::zero_value() by {
        let x = input.cells[p];
        assert(0i64.wrapping_mul(x) == 0) by {
            assert(0 * x == 0);
        }
    }
    lemma_zero_layer::<i64, F>(inputs, outputs, input, f, out);
}

/// How many weights and biases the first `l` layers hold together.
pub open spec fn parameters_before<T>(net: Seq<LayerView<T>>, l: int) -> nat
    decreases l,
{
    if l <= 0 {
        0
    } else {
        parameters_before(net, l - 1) + net[l - 1].weights.cells.len() + net[l - 1].biases.cells.len()
    }
}

/// How many weights and biases the network holds.
pub open spec fn parameter_count<T>(net: Seq<LayerView<T>>) -> nat {
    parameters_before(net, net.len() as int)
}

/// `after` is `before` with every weight and bias replaced by a sample of
/// its own: the parameters are numbered layer by layer, in each layer the
/// weights before the biases, each matrix in row-major order, and parameter
/// number `k` is a value that `draw` may return for sample number `k`.
pub open spec fn network_drawn<T, F: Fn(usize) -> T>(
    draw: F,
    before: Seq<LayerView<T>>,
    after: Seq<LayerView<T>>,
) -> bool {
    &&& after.len() == before.len()
    &&& forall|l: int|
        0 <= l < before.len() ==> {
            &&& drawn_from(
                draw,
                parameters_before(before, l),
                before[l].weights,
                (#[trigger] after[l]).weights,
            )
            &&& drawn_from(
                draw,
                parameters_before(before, l) + before[l].weights.cells.len(),
                before[l].biases,
                after[l].biases,
            )
        }
}

/// The count of parameters grows with the layers.
pub proof fn lemma_parameters_before_grows<T>(net: Seq<LayerView<T>>, l: int, m: int)
    requires
        l <= m,
    ensures
        parameters_before(net, l) <= parameters_before(net, m),
    decreases m - l,
{
    if l < m {
        lemma_parameters_before_grows(net, l, m - 1);
    }
}

/// Networks of the same shapes number their parameters alike.
proof fn lemma_parameters_before_same<T>(x: Seq<LayerView<T>>, y: Seq<LayerView<T>>, l: int)
    requires
        l <= x.len(),
        l <= y.len(),
        forall|k: int|
            0 <= k < l ==> (#[trigger] x[k]).weights.cells.len() == y[k].weights.cells.len()
                && x[k].biases.cells.len() == y[k].biases.cells.len(),
    ensures
        parameters_before(x, l) == parameters_before(y, l),
    decreases l,
{
    if l > 0 {
        lemma_parameters_before_same(x, y, l - 1);
        assert(x[l - 1].weights.cells.len() == y[l - 1].weights.cells.len());
    }
}

/// Two networks have as many layers, and layer by layer well-formed
/// matrices of the same shapes.
pub open spec fn same_shapes<T>(x: Seq<LayerView<T>>, y: Seq<LayerView<T>>) -> bool {
    &&& x.len() == y.len()
    &&& forall|l: int|
        0 <= l < x.len() ==> {
            &&& (#[trigger] x[l]).wf()
            &&& y[l].wf()
            &&& x[l].same_shape(y[l])
        }
}

/// Layer `l` of two networks that a sequence of samples has made of
/// networks of the same shapes is the same.
proof fn lemma_layer_drawn_unique<T, F: Fn(usize) -> T>(
    draw: F,
    x: Seq<LayerView<T>>,
    y: Seq<LayerView<T>>,
    a: Seq<LayerView<T>>,
    b: Seq<LayerView<T>>,
    l: int,
)
    requires
        is_sequence(draw),
        same_shapes(x, y),
        network_drawn(draw, x, a),
        network_drawn(draw, y, b),
        0 <= l < x.len(),
    ensures
        a[l] == b[l],
{
    assert forall|k: int| 0 <= k < x.len() implies (#[trigger] x[k]).weights.cells.len()
        == y[k].weights.cells.len() && x[k].biases.cells.len() == y[k].biases.cells.len() by {
        assert(x[k].wf());
        assert(y[k].wf());
        assert(x[k].same_shape(y[k]));
    }
    lemma_parameters_before_same(x, y, l);
    let first = parameters_before(x, l);
    let wa = a[l].weights;
    let wb = b[l].weights;
    assert(drawn_from(draw, first, x[l].weights, wa));
    assert(drawn_from(draw, first, y[l].weights, wb));
    lemma_drawn_from_unique(draw, first, x[l].weights, y[l].weights, wa, wb);
    let next = first + x[l].weights.cells.len();
    let ba = a[l].biases;
    let bb = b[l].biases;
    assert(drawn_from(draw, next, x[l].biases, ba));
    assert(drawn_from(draw, next, y[l].biases, bb));
    lemma_drawn_from_unique(draw, next, x[l].biases, y[l].biases, ba, bb);
}

/// What a sequence of samples makes of a network depends on the samples and
/// on the shapes only, not on the parameters that were there before.
pub proof fn lemma_network_drawn_unique<T, F: Fn(usize) -> T>(
    draw: F,
    x: Seq<LayerView<T>>,
    y: Seq<LayerView<T>>,
    a: Seq<LayerView<T>>,
    b: Seq<LayerView<T>>,
)
    requires
        is_sequence(draw),
        same_shapes(x, y),
        network_drawn(draw, x, a),
        network_drawn(draw, y, b),
    ensures
        a == b,
{
    assert forall|l: int| 0 <= l < a.len() implies a[l] == b[l] by {
        lemma_layer_drawn_unique(draw, x, y, a, b, l);
    }
    assert(a =~= b);
}

/// One layer of neurons: its weights and its biases.
#[derive(Debug)]
pub struct Layer<T> {
    weights: Matrix<T>,
    biases: Matrix<T>,
}

impl<T> View for Layer<T> {
    type V = LayerView<T>;

    closed spec fn view(&self) -> LayerView<T> {
        LayerView { weights: self.weights@, biases: self.biases@ }
    }
}

impl<T: Scalar> Layer<T> {
    /// The layer is sound: see [`LayerView::wf`].  Every constructor
    /// establishes this and every method keeps it.
    pub open spec fn wf(&self) -> bool {
        self@.wf()
    }

    /// A layer of `current` neurons behind `prev` inputs, all weights and
    /// biases zero.  Both sizes must be positive.  The caller sees to it that
    /// the number of weights can be counted in a `usize`.
    pub fn new(prev: usize, current: usize) -> (r: Result<Self, MatrixError>)
        requires
            current * prev <= usize::MAX,
        ensures
            match r {
                Ok(layer) => {
                    &&& prev > 0 && current > 0
                    &&& layer@ == LayerView::<T>::zeroed(prev as nat, current as nat)
                },
                Err(e) => e is CreateError && (prev == 0 || current == 0),
            },
    {
        let weights = Matrix::new(current, prev)?;
        let biases = Matrix::new(current, 1)?;
        return Ok(Layer { weights, biases });
    }

    /// The weights: one row per neuron, one column per input.
    pub fn weights(&self) -> (m: &Matrix<T>)
        ensures
            m@ == self@.weights,
    {
        &self.weights
    }

    /// The biases: a column with one row per neuron.
    pub fn biases(&self) -> (m: &Matrix<T>)
        ensures
            m@ == self@.biases,
    {
        &self.biases
    }

    /// The layer written out for a human reader, with `show` writing each
    /// cell: the weights under a heading, then the biases under a heading.
    pub fn to_string<F: Fn(T) -> String>(&self, show: &F) -> (text: String)
        requires
            self.wf(),
            can_write_layer(*show, self@),
        ensures
            renders_layer(*show, self@, text@),
    {
        let weights = self.weights.to_string(show);
        let biases = self.biases.to_string(show);
        let mut text = String::new();
        text.push_str("Weights:\n ");
        text.push_str(weights.as_str());
        text.push_str("\nBiases: \n ");
        text.push_str(biases.as_str());
        assert(text@ =~= layer_text(weights@, biases@));
        text
    }

    /// One forward step: the logistic function applied to
    /// `weights * activation + biases`.  The input is a column with one row
    /// per input of the layer; the result is a column with one row per
    /// neuron.
    pub fn activate<F: Fn(T) -> T>(&self, activation: Matrix<T>, logistic: &F) -> (out: Matrix<T>)
        requires
            self.wf(),
            activation.wf(),
            activation@.is_column(self@.inputs()),
            takes(*logistic, self@.excitation(activation@)),
        ensures
            out.wf(),
            out@.is_column(self@.outputs()),
            applies(*logistic, self@.excitation(activation@), out@),
    {
        proof {
            self.weights.lemma_fits();
        }
        let mut result = self.weights.clone().mul(activation).add(self.biases.clone());
        result.sigmoid(logistic);
        return result;
    }
}

/// The examples of a data set with one example per row: for each row the
/// cells after the first as a column, and the last cell.
fn examples<T: Copy>(model: &Matrix<T>) -> (examples: Vec<(Matrix<T>, T)>)
    requires
        model.wf(),
        model@.cols > 0,
    ensures
        holds_examples(model@, examples@),
{
    let cols = model.cols();
    let chunks = model.row_chunks();
    let mut examples: Vec<(Matrix<T>, T)> = Vec::with_capacity(chunks.len());
    let mut c: usize = 0;
    while c < chunks.len()
        invariant
            cols == model@.cols,
            cols > 0,
            chunks@.len() == model@.rows,
            forall|i: int| 0 <= i < model@.rows ==> (#[trigger] chunks@[i])@ == model@.row(i),
            c <= chunks@.len(),
            examples@.len() == c,
            forall|k: int|
                0 <= k < c ==> {
                    &&& (#[trigger] examples@[k]).0.wf()
                    &&& examples@[k].0@ == case_input(model@, k)
                    &&& examples@[k].1 == case_label(model@, k)
                },
        decreases chunks@.len() - c,
    {
        let row = chunks[c];
        assert(row@ == model@.row(c as int));
        let label = row[cols - 1];
        let tail = vstd::slice::slice_to_vec(vstd::slice::slice_subrange(row, 1, cols));
        assert(tail@ =~= model@.row(c as int).skip(1));
        match Matrix::from_vec(cols - 1, 1, tail) {
            Ok(input) => {
                examples.push((input, label));
            },
            Err(_) => {
                assert(false);
            },
        }
        c += 1;
    }
    examples
}

/// `examples` holds the examples of the data set, row by row.
pub open spec fn holds_examples<T>(dataset: MatrixView<T>, examples: Seq<(Matrix<T>, T)>) -> bool {
    &&& examples.len() == dataset.rows
    &&& forall|c: int|
        0 <= c < dataset.rows ==> {
            &&& (#[trigger] examples[c]).0.wf()
            &&& examples[c].0@ == case_input(dataset, c)
            &&& examples[c].1 == case_label(dataset, c)
        }
}

/// Two series of steps of the same shapes, added layer by layer.
fn add_steps<T: Scalar>(total: Vec<Layer<T>>, steps: &Vec<Layer<T>>, Ghost(net): Ghost<
    Seq<LayerView<T>>,
>) -> (sum: Vec<Layer<T>>)
    requires
        fits_layers(net, layer_views(total@)),
        fits_layers(net, layer_views(steps@)),
    ensures
        layer_views(sum@) == summed(layer_views(total@), layer_views(steps@)),
        fits_layers(net, layer_views(sum@)),
{
    let n = total.len();
    let ghost tv = layer_views(total@);
    let ghost sv = layer_views(steps@);
    let mut sum: Vec<Layer<T>> = Vec::with_capacity(n);
    let mut l: usize = 0;
    while l < n
        invariant
            n == total@.len(),
            n == steps@.len(),
            n == net.len(),
            l <= n,
            tv == layer_views(total@),
            sv == layer_views(steps@),
            fits_layers(net, tv),
            fits_layers(net, sv),
            sum@.len() == l,
            forall|k: int| 0 <= k < l ==> (#[trigger] sum@[k])@ == tv[k].plus(sv[k]),
        decreases n - l,
    {
        proof {
            assert(tv[l as int] == total@[l as int]@);
            assert(sv[l as int] == steps@[l as int]@);
            assert(tv[l as int].wf() && tv[l as int].same_shape(net[l as int]));
            assert(sv[l as int].wf() && sv[l as int].same_shape(net[l as int]));
        }
        let weights = total[l].weights.clone().add(steps[l].weights.clone());
        let biases = total[l].biases.clone().add(steps[l].biases.clone());
        sum.push(Layer { weights, biases });
        l += 1;
    }
    proof {
        assert(layer_views(sum@) =~= summed(tv, sv));
        assert forall|k: int| 0 <= k < n implies (#[trigger] layer_views(sum@)[k]).wf()
            && layer_views(sum@)[k].same_shape(net[k]) by {
            assert(tv[k].wf() && tv[k].same_shape(net[k]));
            assert(sv[k].wf() && sv[k].same_shape(net[k]));
        }
    }
    sum
}

/// A feedforward network: its layers, first to last.
#[derive(Debug)]
pub struct NN<T> {
    data: Vec<Layer<T>>,
}

impl<T> View for NN<T> {
    type V = Seq<LayerView<T>>;

    closed spec fn view(&self) -> Seq<LayerView<T>> {
        layer_views(self.data@)
    }
}

impl<T: Scalar> NN<T> {
    /// The network is sound: see [`network_wf`].  Every constructor
    /// establishes this and every method keeps it.
    pub open spec fn wf(&self) -> bool {
        network_wf(self@)
    }

    /// The network with one layer between each two consecutive sizes, all
    /// weights and biases zero.  At least two sizes are needed, and none may
    /// be zero: a network without a layer is refused.  The caller sees to it
    /// that the number of weights of every layer can be counted in a
    /// `usize`.
    pub fn new(sizes: Vec<usize>) -> (r: Result<NN<T>, MatrixError>)
        requires
            forall|i: int|
                0 <= i < sizes@.len() - 1 ==> (#[trigger] sizes@[i]) * sizes@[i + 1] <= usize::MAX,
        ensures
            match r {
                Ok(nn) => {
                    &&& sizes@.len() >= 2
                    &&& forall|i: int| 0 <= i < sizes@.len() ==> #[trigger] sizes@[i] > 0
                    &&& nn.wf()
                    &&& nn@ == Seq::new(
                        (sizes@.len() - 1) as nat,
                        |l: int| LayerView::<T>::zeroed(sizes@[l] as nat, sizes@[l + 1] as nat),
                    )
                },
                Err(e) => {
                    &&& e is CreateError
                    &&& (sizes@.len() < 2 || exists|i: int| 0 <= i < sizes@.len() && #[trigger] sizes@[i] == 0)
                },
            },
    {
        if sizes.len() < 2 {
            return Err(MatrixError::CreateError);
        }
        let mut data: Vec<Layer<T>> = Vec::with_capacity(sizes.len());
        let mut l: usize = 0;
        while l < sizes.len() - 1
            invariant
                sizes@.len() >= 2,
                l <= sizes@.len() - 1,
                forall|i: int|
                0 <= i < sizes@.len() - 1 ==> (#[trigger] sizes@[i]) * sizes@[i + 1] <= usize::MAX,
                data@.len() == l,
                l > 0 ==> forall|i: int| 0 <= i <= l ==> #[trigger] sizes@[i] > 0,
                forall|k: int|
                    0 <= k < l ==> (#[trigger] data@[k])@ == LayerView::<T>::zeroed(
                        sizes@[k] as nat,
                        sizes@[k + 1] as nat,
                    ),
            decreases sizes@.len() - 1 - l,
        {
            assert(sizes@[l as int] * sizes@[l + 1] == sizes@[l + 1] * sizes@[l as int])
                by (nonlinear_arith);
            match Layer::new(sizes[l], sizes[l + 1]) {
                Ok(layer) => {
                    data.push(layer);
                },
                Err(e) => {
                    return Err(e);
                },
            }
            l += 1;
        }
        let nn = NN { data };
        assert(nn@ =~= Seq::new(
            (sizes@.len() - 1) as nat,
            |l: int| LayerView::<T>::zeroed(sizes@[l] as nat, sizes@[l + 1] as nat),
        ));
        return Ok(nn);
    }

    /// The network written out for a human reader, with `show` writing each
    /// cell: every layer in order, each after an empty line.
    pub fn to_string<F: Fn(T) -> String>(&self, show: &F) -> (text: String)
        requires
            self.wf(),
            can_write_network(*show, self@),
        ensures
            renders_network(*show, self@, text@),
    {
        let n = self.data.len();
        let mut text = String::new();
        let ghost mut layers: Seq<Seq<char>> = Seq::empty();
        let mut l: usize = 0;
        while l < n
            invariant
                self.wf(),
                can_write_network(*show, self@),
                n == self.data@.len(),
                l <= n,
                layers.len() == l,
                forall|k: int|
                    0 <= k < l ==> renders_layer(*show, self@[k], #[trigger] layers[k]),
                text@ == network_text(layers, l as nat),
            decreases n - l,
        {
            assert(self@[l as int].wf());
            assert(can_write_layer(*show, self@[l as int]));
            let layer = self.data[l].to_string(show);
            let ghost before = layers;
            text.push_str("\n");
            text.push_str(layer.as_str());
            text.push_str("\n");
            proof {
                layers = layers.push(layer@);
                lemma_network_text_prefix(before, layers, l as nat);
                assert(text@ =~= network_text(layers, (l + 1) as nat));
            }
            l += 1;
        }
        assert(shown_layers(*show, self@, layers));
        text
    }

    /// The layers, first to last.
    pub fn layers(&self) -> (layers: &Vec<Layer<T>>)
        ensures
            layers@.len() == self@.len(),
            forall|l: int| 0 <= l < self@.len() ==> (#[trigger] layers@[l])@ == self@[l],
    {
        &self.data
    }

    /// Feeds a column of inputs through every layer in order and returns
    /// what the last layer gives out.  The input must be a column with one
    /// row per input of the first layer.
    pub fn activate<F: Fn(T) -> T>(&self, input: Matrix<T>, logistic: &F) -> (r: Result<
        Matrix<T>,
        MatrixError,
    >)
        requires
            self.wf(),
            input.wf(),
            forall|x: T| call_requires(*logistic, (x,)),
        ensures
            match r {
                Ok(out) => {
                    &&& input@.is_column(self@[0].inputs())
                    &&& out.wf()
                    &&& out@.is_column(self@.last().outputs())
                    &&& infers(self@, *logistic, input@, out@)
                },
                Err(e) => e is CreateError && !input@.is_column(self@[0].inputs()),
            },
    {
        if input.rows() != self.data[0].weights.cols() || input.cols() != 1 {
            return Err(MatrixError::CreateError);
        }
        let ghost first = input@;
        let ghost mut acts: Seq<MatrixView<T>> = seq![input@];
        let mut current = input;
        let mut l: usize = 0;
        while l < self.data.len()
            invariant
                self.wf(),
                forall|x: T| call_requires(*logistic, (x,)),
                l <= self.data@.len(),
                current.wf(),
                l < self.data@.len() ==> current@.is_column(self@[l as int].inputs()),
                l > 0 ==> current@.is_column(self@[l - 1].outputs()),
                acts.len() == l + 1,
                acts[0] == first,
                acts.last() == current@,
                forall|k: int|
                    0 <= k < l ==> applies(
                        *logistic,
                        self@[k].excitation(acts[k]),
                        #[trigger] acts[k + 1],
                    ),
            decreases self.data@.len() - l,
        {
            assert(self@[l as int].wf());
            let next = self.data[l].activate(current, logistic);
            proof {
                acts = acts.push(next@);
            }
            current = next;
            l += 1;
        }
        assert(is_forward_pass(self@, *logistic, first, acts));
        return Ok(current);
    }

    /// A forward pass that keeps what every layer gives out: the input
    /// first, then the output of each layer in order.  The input must be a
    /// column with one row per input of the first layer.
    pub fn forward_pass<F: Fn(T) -> T>(&self, input: Matrix<T>, logistic: &F) -> (acts: Vec<
        Matrix<T>,
    >)
        requires
            self.wf(),
            input.wf(),
            input@.is_column(self@[0].inputs()),
            forall|x: T| call_requires(*logistic, (x,)),
        ensures
            is_forward_pass(self@, *logistic, input@, views(acts@)),
            fits_network(self@, views(acts@)),
    {
        let ghost first = input@;
        let mut acts: Vec<Matrix<T>> = Vec::new();
        acts.push(input);
        let mut l: usize = 0;
        while l < self.data.len()
            invariant
                self.wf(),
                forall|x: T| call_requires(*logistic, (x,)),
                l <= self.data@.len(),
                acts@.len() == l + 1,
                acts@[0]@ == first,
                forall|k: int| 0 <= k <= l ==> (#[trigger] acts@[k]).wf(),
                forall|k: int|
                    0 <= k <= l && k < self.data@.len() ==> (#[trigger] acts@[k])@.is_column(
                        self@[k].inputs(),
                    ),
                l > 0 ==> acts@[l as int]@.is_column(self@[l - 1].outputs()),
                forall|k: int|
                    0 <= k < l ==> applies(
                        *logistic,
                        self@[k].excitation(acts@[k]@),
                        (#[trigger] acts@[k + 1])@,
                    ),
            decreases self.data@.len() - l,
        {
            assert(self@[l as int].wf());
            let next = self.data[l].activate(acts[l].clone(), logistic);
            acts.push(next);
            l += 1;
        }
        proof {
            let av = views(acts@);
            assert forall|k: int| 0 <= k < self@.len() implies applies(
                *logistic,
                self@[k].excitation(av[k]),
                #[trigger] av[k + 1],
            ) by {
                assert(av[k + 1] == acts@[k + 1]@);
            }
            assert forall|k: int| 0 <= k < av.len() implies (#[trigger] av[k]).wf() by {
                assert(acts@[k].wf());
            }
            assert forall|k: int| 0 <= k < self@.len() implies (#[trigger] av[k]).is_column(
                self@[k].inputs(),
            ) by {
                assert(acts@[k]@.is_column(self@[k].inputs()));
            }
        }
        acts
    }

    /// The steps of all layers for one example, given the layer outputs
    /// `acts` that a forward pass on the example recorded: for every layer
    /// its gradient scaled by the learning rate.
    pub fn gradient(&self, acts: &Vec<Matrix<T>>, label: T, config: &Training<T>) -> (steps: Vec<
        Layer<T>,
    >)
        requires
            self.wf(),
            fits_network(self@, views(acts@)),
        ensures
            layer_views(steps@) == example_steps(self@, views(acts@), *config, label),
            fits_layers(self@, layer_views(steps@)),
    {
        let n = self.data.len();
        let ghost net = self@;
        let ghost av = views(acts@);
        let loss = config.loss;
        let rate = config.rate;
        assert(forall|k: int| 0 <= k <= n ==> av[k] == (#[trigger] acts@[k])@);
        assert(av.last() == av[n as int]);
        assert(net.last() == net[n - 1]);

        let output = &acts[n];
        assert(output@ == av[n as int]);
        let mut target = output.clone();
        target.fill(label);
        assert(target@ =~= MatrixView::filled(output@.rows, output@.cols, label));
        let miss = output.clone().sub(target);
        let top = match loss {
            Loss::SquaredError => miss.hadamard(output.logistic_slope()),
            Loss::CrossEntropy => miss,
        };
        assert(top@ == output_error(loss, av[n as int], label));

        // errors[k] is the error of layer n - 1 - k
        let mut errors: Vec<Matrix<T>> = Vec::with_capacity(n);
        errors.push(top);
        while errors.len() < n
            invariant
                n == self.data@.len(),
                self@ == net,
                network_wf(net),
                av == views(acts@),
                fits_network(net, av),
                1 <= errors@.len() <= n,
                forall|k: int|
                    0 <= k < errors@.len() ==> {
                        &&& (#[trigger] errors@[k])@ == layer_error(net, av, loss, label, n - 1 - k)
                        &&& errors@[k]@.wf()
                        &&& errors@[k]@.is_column(net[n - 1 - k].outputs())
                    },
            decreases n - errors@.len(),
        {
            let k = errors.len();
            let l = n - 1 - k;
            proof {
                assert(net[l + 1].wf());
                assert(net[l + 1].inputs() == net[l as int].outputs());
                assert(self.data@[l + 1]@ == net[l + 1]);
                assert(av[l + 1] == acts@[l + 1]@);
                assert(av[l + 1].wf());
                assert(av[l + 1].is_column(net[l + 1].inputs()));
                self.data@[l + 1].weights.lemma_fits();
            }
            let carried = self.data[l + 1].weights.transpose().mul(errors[k - 1].clone());
            let error = carried.hadamard(acts[l + 1].logistic_slope());
            errors.push(error);
        }

        let mut steps: Vec<Layer<T>> = Vec::with_capacity(n);
        let mut l: usize = 0;
        while l < n
            invariant
                n == self.data@.len(),
                n == net.len(),
                self@ == net,
                l <= n,
                network_wf(net),
                av == views(acts@),
                fits_network(net, av),
                errors@.len() == n,
                forall|k: int|
                    0 <= k < n ==> {
                        &&& (#[trigger] errors@[k])@ == layer_error(net, av, loss, label, n - 1 - k)
                        &&& errors@[k]@.wf()
                        &&& errors@[k]@.is_column(net[n - 1 - k].outputs())
                    },
                steps@.len() == l,
                forall|k: int|
                    0 <= k < l ==> {
                        &&& (#[trigger] steps@[k])@ == layer_step(
                            layer_error(net, av, loss, label, k),
                            av[k],
                            rate,
                        )
                        &&& steps@[k]@.wf()
                        &&& steps@[k]@.same_shape(net[k])
                    },
            decreases n - l,
        {
            proof {
                assert(net[l as int].wf());
                assert(self.data@[l as int]@ == net[l as int]);
                assert(av[l as int] == acts@[l as int]@);
                assert(av[l as int].wf());
                assert(av[l as int].is_column(net[l as int].inputs()));
                assert(errors@[n - 1 - l]@ == layer_error(net, av, loss, label, l as int));
                self.data@[l as int].weights.lemma_fits();
            }
            let error = &errors[n - 1 - l];
            let weights = error.clone().mul(acts[l].transpose()).scale(rate);
            let biases = error.clone().scale(rate);
            steps.push(Layer { weights, biases });
            l += 1;
        }
        proof {
            assert(layer_views(steps@) =~= example_steps(net, av, *config, label));
        }
        steps
    }

    /// Moves the network against `steps`: every layer loses its step.
    pub fn descend(&mut self, steps: &Vec<Layer<T>>)
        requires
            old(self).wf(),
            fits_layers(old(self)@, layer_views(steps@)),
        ensures
            final(self).wf(),
            final(self)@ == moved(old(self)@, layer_views(steps@)),
    {
        let n = self.data.len();
        let ghost net = self@;
        let ghost sv = layer_views(steps@);
        let mut l: usize = 0;
        while l < n
            invariant
                n == self.data@.len(),
                n == net.len(),
                l <= n,
                network_wf(net),
                sv == layer_views(steps@),
                fits_layers(net, sv),
                forall|k: int| 0 <= k < l ==> (#[trigger] self.data@[k])@ == net[k].minus(sv[k]),
                forall|k: int| l <= k < n ==> (#[trigger] self.data@[k])@ == net[k],
            decreases n - l,
        {
            proof {
                assert(net[l as int].wf());
                assert(sv[l as int] == steps@[l as int]@);
                assert(sv[l as int].wf() && sv[l as int].same_shape(net[l as int]));
            }
            let weights = self.data[l].weights.clone().sub(steps[l].weights.clone());
            let biases = self.data[l].biases.clone().sub(steps[l].biases.clone());
            self.data[l] = Layer { weights, biases };
            l += 1;
        }
        proof {
            lemma_moved_wf(net, sv);
            assert(self@ =~= moved(net, sv));
        }
    }

    /// One step of gradient descent on one example, given the layer outputs
    /// `acts` that a forward pass on the example recorded.
    pub fn backpropagate(&mut self, acts: &Vec<Matrix<T>>, label: T, config: &Training<T>)
        requires
            old(self).wf(),
            fits_network(old(self)@, views(acts@)),
        ensures
            final(self).wf(),
            final(self)@ == moved(
                old(self)@,
                example_steps(old(self)@, views(acts@), *config, label),
            ),
    {
        let steps = self.gradient(acts, label, config);
        self.descend(&steps);
    }

    /// No step at all: for every layer, zeros of its shape.
    fn no_steps(&self) -> (steps: Vec<Layer<T>>)
        requires
            self.wf(),
        ensures
            layer_views(steps@) == no_steps(self@),
            fits_layers(self@, layer_views(steps@)),
    {
        let n = self.data.len();
        let mut steps: Vec<Layer<T>> = Vec::with_capacity(n);
        let mut l: usize = 0;
        while l < n
            invariant
                self.wf(),
                n == self.data@.len(),
                l <= n,
                steps@.len() == l,
                forall|k: int|
                    0 <= k < l ==> (#[trigger] steps@[k])@ == LayerView::<T>::zeroed(
                        self@[k].inputs(),
                        self@[k].outputs(),
                    ),
            decreases n - l,
        {
            proof {
                assert(self@[l as int].wf());
                self.data@[l as int].weights.lemma_fits();
            }
            let prev = self.data[l].weights.cols();
            let current = self.data[l].weights.rows();
            match Layer::new(prev, current) {
                Ok(layer) => {
                    steps.push(layer);
                },
                Err(_) => {
                    assert(false);
                },
            }
            l += 1;
        }
        proof {
            assert(layer_views(steps@) =~= no_steps(self@));
            assert forall|k: int| 0 <= k < n implies (#[trigger] layer_views(steps@)[k]).wf()
                && layer_views(steps@)[k].same_shape(self@[k]) by {
                assert(self@[k].wf());
            }
        }
        steps
    }

    /// Trains the network on a data set with one example per row: the first
    /// cell of a row is skipped, the cells after it are the input, and the
    /// last cell is the label.  Every epoch takes the examples in order;
    /// `config` says which gradient is followed, how far, and whether the
    /// network moves after every example or once per epoch.  The data set
    /// must be one column wider than the input of the network; otherwise
    /// nothing is changed.
    pub fn train_model<F: Fn(T) -> T>(
        &mut self,
        model: &Matrix<T>,
        epochs: usize,
        config: &Training<T>,
        logistic: &F,
    ) -> (r: Result<(), MatrixError>)
        requires
            old(self).wf(),
            model.wf(),
            forall|x: T| call_requires(*logistic, (x,)),
        ensures
            final(self).wf(),
            final(self)@.len() == old(self)@.len(),
            forall|l: int|
                0 <= l < old(self)@.len() ==> (#[trigger] final(self)@[l]).same_shape(old(self)@[l]),
            match r {
                Ok(_) => {
                    &&& model@.cols == old(self)@[0].inputs() + 1
                    &&& trained(
                        old(self)@,
                        *logistic,
                        *config,
                        model@,
                        epochs as nat,
                        final(self)@,
                    )
                },
                Err(e) => {
                    &&& e is CreateError
                    &&& model@.cols != old(self)@[0].inputs() + 1
                    &&& final(self)@ == old(self)@
                },
            },
    {
        let inputs = self.data[0].weights.cols();
        if model.cols() == 0 || model.cols() - 1 != inputs {
            return Err(MatrixError::CreateError);
        }
        let examples = examples(model);
        match config.schedule {
            Schedule::PerExample => self.train_by_example(model, &examples, epochs, config, logistic),
            Schedule::PerEpoch => self.train_by_epoch(model, &examples, epochs, config, logistic),
        }
        return Ok(());
    }

    /// Training that moves the network after every example.
    fn train_by_example<F: Fn(T) -> T>(
        &mut self,
        model: &Matrix<T>,
        examples: &Vec<(Matrix<T>, T)>,
        epochs: usize,
        config: &Training<T>,
        logistic: &F,
    )
        requires
            old(self).wf(),
            model.wf(),
            forall|x: T| call_requires(*logistic, (x,)),
            model@.cols == old(self)@[0].inputs() + 1,
            holds_examples(model@, examples@),
        ensures
            final(self).wf(),
            final(self)@.len() == old(self)@.len(),
            forall|l: int|
                0 <= l < old(self)@.len() ==> (#[trigger] final(self)@[l]).same_shape(old(self)@[l]),
            stepped(
                old(self)@,
                *logistic,
                *config,
                model@,
                (epochs * model@.rows) as nat,
                final(self)@,
            ),
    {
        let rows = model.rows();
        let ghost start = self@;
        let mut epoch: usize = 0;
        while epoch < epochs
            invariant
                self.wf(),
                network_wf(start),
                forall|x: T| call_requires(*logistic, (x,)),
                rows == model@.rows,
                model@.cols == start[0].inputs() + 1,
                epoch <= epochs,
                self@.len() == start.len(),
                forall|l: int| 0 <= l < start.len() ==> (#[trigger] self@[l]).same_shape(start[l]),
                holds_examples(model@, examples@),
                stepped(start, *logistic, *config, model@, (epoch * rows) as nat, self@),
            decreases epochs - epoch,
        {
            let mut c: usize = 0;
            while c < rows
                invariant
                    self.wf(),
                    network_wf(start),
                    forall|x: T| call_requires(*logistic, (x,)),
                    rows == model@.rows,
                    model@.cols == start[0].inputs() + 1,
                    epoch < epochs,
                    c <= rows,
                    self@.len() == start.len(),
                    forall|l: int|
                        0 <= l < start.len() ==> (#[trigger] self@[l]).same_shape(start[l]),
                    holds_examples(model@, examples@),
                    stepped(start, *logistic, *config, model@, (epoch * rows + c) as nat, self@),
                decreases rows - c,
            {
                let ghost mid = self@;
                assert(mid[0].same_shape(start[0]));
                let acts = self.forward_pass(examples[c].0.clone(), logistic);
                self.backpropagate(&acts, examples[c].1, config);
                proof {
                    assert(0 <= epoch * rows) by (nonlinear_arith)
                        requires
                            0 <= epoch,
                            0 <= rows,
                    ;
                    let steps: nat = (epoch * rows + c + 1) as nat;
                    let turn = (steps - 1) % (model@.rows as int);
                    lemma_flat_index((epoch + 1) as nat, rows as nat, epoch as int, c as int);
                    assert(turn == c);
                    lemma_moved_wf(
                        mid,
                        example_steps(mid, views(acts@), *config, examples@[c as int].1),
                    );
                    assert(learns_example(
                        mid,
                        *logistic,
                        *config,
                        case_input(model@, turn),
                        case_label(model@, turn),
                        self@,
                    ));
                    assert((steps - 1) as nat == (epoch * rows + c) as nat);
                    assert(stepped(start, *logistic, *config, model@, steps, self@));
                    assert(steps == (epoch * rows + (c + 1)) as nat);
                }
                c += 1;
            }
            assert((epoch + 1) * rows == epoch * rows + rows) by (nonlinear_arith);
            epoch += 1;
        }
    }

    /// Training that moves the network once per epoch, against the sum of
    /// the steps of all examples.
    fn train_by_epoch<F: Fn(T) -> T>(
        &mut self,
        model: &Matrix<T>,
        examples: &Vec<(Matrix<T>, T)>,
        epochs: usize,
        config: &Training<T>,
        logistic: &F,
    )
        requires
            old(self).wf(),
            model.wf(),
            forall|x: T| call_requires(*logistic, (x,)),
            model@.cols == old(self)@[0].inputs() + 1,
            holds_examples(model@, examples@),
        ensures
            final(self).wf(),
            final(self)@.len() == old(self)@.len(),
            forall|l: int|
                0 <= l < old(self)@.len() ==> (#[trigger] final(self)@[l]).same_shape(old(self)@[l]),
            batched(old(self)@, *logistic, *config, model@, epochs as nat, final(self)@),
    {
        let rows = model.rows();
        let ghost start = self@;
        let mut epoch: usize = 0;
        while epoch < epochs
            invariant
                self.wf(),
                network_wf(start),
                forall|x: T| call_requires(*logistic, (x,)),
                rows == model@.rows,
                model@.cols == start[0].inputs() + 1,
                epoch <= epochs,
                self@.len() == start.len(),
                forall|l: int| 0 <= l < start.len() ==> (#[trigger] self@[l]).same_shape(start[l]),
                holds_examples(model@, examples@),
                batched(start, *logistic, *config, model@, epoch as nat, self@),
            decreases epochs - epoch,
        {
            let ghost before = self@;
            assert(before[0].same_shape(start[0]));
            let mut total = self.no_steps();
            let mut c: usize = 0;
            while c < rows
                invariant
                    self.wf(),
                    self@ == before,
                    forall|x: T| call_requires(*logistic, (x,)),
                    rows == model@.rows,
                    model@.cols == before[0].inputs() + 1,
                    c <= rows,
                    holds_examples(model@, examples@),
                    fits_layers(before, layer_views(total@)),
                    gathered(before, *logistic, *config, model@, c as nat, layer_views(total@)),
                decreases rows - c,
            {
                let acts = self.forward_pass(examples[c].0.clone(), logistic);
                let steps = self.gradient(&acts, examples[c].1, config);
                let ghost sum = layer_views(total@);
                total = add_steps(total, &steps, Ghost(before));
                proof {
                    assert(adds_example(
                        before,
                        *logistic,
                        *config,
                        case_input(model@, c as int),
                        case_label(model@, c as int),
                        sum,
                        layer_views(total@),
                    ));
                    let count: nat = (c + 1) as nat;
                    assert((count - 1) as nat == c as nat);
                    assert(gathered(before, *logistic, *config, model@, count, layer_views(total@)));
                }
                c += 1;
            }
            self.descend(&total);
            proof {
                lemma_moved_wf(before, layer_views(total@));
                assert(learns_epoch(before, *logistic, *config, model@, self@));
                let done: nat = (epoch + 1) as nat;
                assert((done - 1) as nat == epoch as nat);
                assert(batched(start, *logistic, *config, model@, done, self@));
            }
            epoch += 1;
        }
    }

    /// Runs the network on every example of a data set laid out as for
    /// [`NN::train_model`], and reports for each example, in order, what the
    /// network gave out and the label it was meant to match.  Nothing is
    /// scored.  The data set must be one column wider than the input of the
    /// network.
    pub fn test_model<F: Fn(T) -> T>(&self, model: &Matrix<T>, logistic: &F) -> (r: Result<
        Vec<(Matrix<T>, T)>,
        MatrixError,
    >)
        requires
            self.wf(),
            model.wf(),
            forall|x: T| call_requires(*logistic, (x,)),
        ensures
            match r {
                Ok(report) => {
                    &&& model@.cols == self@[0].inputs() + 1
                    &&& report@.len() == model@.rows
                    &&& forall|c: int|
                        0 <= c < model@.rows ==> {
                            &&& (#[trigger] report@[c]).0.wf()
                            &&& report@[c].0@.is_column(self@.last().outputs())
                            &&& infers(self@, *logistic, case_input(model@, c), report@[c].0@)
                            &&& report@[c].1 == case_label(model@, c)
                        }
                },
                Err(e) => e is CreateError && model@.cols != self@[0].inputs() + 1,
            },
    {
        let inputs = self.data[0].weights.cols();
        if model.cols() == 0 || model.cols() - 1 != inputs {
            return Err(MatrixError::CreateError);
        }
        let examples = examples(model);
        let rows = model.rows();
        let mut report: Vec<(Matrix<T>, T)> = Vec::with_capacity(rows);
        let mut c: usize = 0;
        while c < rows
            invariant
                self.wf(),
                forall|x: T| call_requires(*logistic, (x,)),
                rows == model@.rows,
                model@.cols == self@[0].inputs() + 1,
                c <= rows,
                examples@.len() == rows,
                forall|c: int|
                    0 <= c < rows ==> {
                        &&& (#[trigger] examples@[c]).0.wf()
                        &&& examples@[c].0@ == case_input(model@, c)
                        &&& examples@[c].1 == case_label(model@, c)
                    },
                report@.len() == c,
                forall|k: int|
                    0 <= k < c ==> {
                        &&& (#[trigger] report@[k]).0.wf()
                        &&& report@[k].0@.is_column(self@.last().outputs())
                        &&& infers(self@, *logistic, case_input(model@, k), report@[k].0@)
                        &&& report@[k].1 == case_label(model@, k)
                    },
            decreases rows - c,
        {
            match self.activate(examples[c].0.clone(), logistic) {
                Ok(output) => {
                    report.push((output, examples[c].1));
                },
                Err(e) => {
                    return Err(e);
                },
            }
            c += 1;
        }
        return Ok(report);
    }

    /// How many weights and biases the network holds, or nothing when they
    /// cannot be counted in a `usize`.
    pub fn parameter_count(&self) -> (count: Option<usize>)
        requires
            self.wf(),
        ensures
            match count {
                Some(n) => n == parameter_count(self@),
                None => parameter_count(self@) > usize::MAX,
            },
    {
        let n = self.data.len();
        let mut count: usize = 0;
        let mut l: usize = 0;
        while l < n
            invariant
                self.wf(),
                n == self.data@.len(),
                l <= n,
                count == parameters_before(self@, l as int),
            decreases n - l,
        {
            proof {
                assert(self@[l as int].wf());
                lemma_parameters_before_grows(self@, l + 1, n as int);
            }
            let weights = self.data[l].weights.size();
            let biases = self.data[l].biases.size();
            let next = match count.checked_add(weights) {
                Some(sum) => sum.checked_add(biases),
                None => None,
            };
            match next {
                Some(sum) => {
                    count = sum;
                },
                None => {
                    return None;
                },
            }
            l += 1;
        }
        return Some(count);
    }

    /// Overwrites every weight and every bias of every layer with a sample
    /// of its own.  The parameters are numbered layer by layer, in each layer
    /// the weights before the biases, each matrix in row-major order;
    /// parameter number `k` gets sample number `k` of `draw`.  The caller
    /// sees to it that the parameters can be counted in a `usize`.
    pub fn rand<F: Fn(usize) -> T>(&mut self, draw: &F)
        requires
            old(self).wf(),
            parameter_count(old(self)@) <= usize::MAX,
            forall|k: usize| k < parameter_count(old(self)@) ==> call_requires(*draw, (k,)),
        ensures
            final(self).wf(),
            network_drawn(*draw, old(self)@, final(self)@),
    {
        let n = self.data.len();
        let ghost net = self@;
        let mut first: usize = 0;
        let mut l: usize = 0;
        while l < n
            invariant
                l <= n,
                n == self.data@.len(),
                n == old(self).data@.len(),
                net == old(self)@,
                network_wf(net),
                parameter_count(net) <= usize::MAX,
                forall|k: usize| k < parameter_count(net) ==> call_requires(*draw, (k,)),
                first == parameters_before(net, l as int),
                forall|k: int|
                    0 <= k < l ==> {
                        &&& drawn_from(
                            *draw,
                            parameters_before(net, k),
                            net[k].weights,
                            (#[trigger] self.data@[k])@.weights,
                        )
                        &&& drawn_from(
                            *draw,
                            parameters_before(net, k) + net[k].weights.cells.len(),
                            net[k].biases,
                            self.data@[k]@.biases,
                        )
                    },
                forall|k: int| l <= k < n ==> #[trigger] self.data@[k] == old(self).data@[k],
            decreases n - l,
        {
            let ghost before = self.data@;
            proof {
                assert(before[l as int]@ == net[l as int]);
                assert(net[l as int].wf());
                lemma_parameters_before_grows(net, l + 1, n as int);
            }
            let weights = self.data[l].weights.size();
            let biases = self.data[l].biases.size();
            self.data[l].weights.rand_from(first, draw);
            self.data[l].biases.rand_from(first + weights, draw);
            assert(self.data@.len() == n);
            assert(forall|k: int| 0 <= k < n && k != l ==> self.data@[k] == before[k]);
            assert(drawn_from(
                *draw,
                first as nat,
                net[l as int].weights,
                self.data@[l as int]@.weights,
            ));
            assert(drawn_from(
                *draw,
                (first + weights) as nat,
                net[l as int].biases,
                self.data@[l as int]@.biases,
            ));
            first = first + weights + biases;
            l += 1;
        }
        proof {
            assert forall|k: int| 0 <= k < n implies (#[trigger] self@[k]).wf() by {
                assert(net[k].wf());
                assert(self@[k] == self.data@[k]@);
            }
            assert forall|k: int| 0 <= k < n - 1 implies (#[trigger] self@[k + 1]).inputs()
                == self@[k].outputs() by {
                assert(net[k + 1].inputs() == net[k].outputs());
                assert(self@[k] == self.data@[k]@);
                assert(self@[k + 1] == self.data@[k + 1]@);
            }
            assert forall|k: int| 0 <= k < n implies {
                &&& drawn_from(
                    *draw,
                    parameters_before(net, k),
                    net[k].weights,
                    (#[trigger] self@[k]).weights,
                )
                &&& drawn_from(
                    *draw,
                    parameters_before(net, k) + net[k].weights.cells.len(),
                    net[k].biases,
                    self@[k].biases,
                )
            } by {
                assert(self@[k] == self.data@[k]@);
            }
        }
    }
}

} // verus!
