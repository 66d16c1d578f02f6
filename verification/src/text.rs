//! How matrices, layers and networks are written out for a human reader.
//!
//! The library decides the layout.  How a single cell is written is left to
//! the caller, who passes the function that turns a cell into text.

use crate::algebra::MatrixView;
use crate::nn::LayerView;
use vstd::prelude::*;

verus! {

/// `String::push_str` of the standard library: the text afterwards is the
/// text before, followed by the characters of `tail`.
pub assume_specification[ String::push_str ](text: &mut String, tail: &str)
    ensures
        final(text)@ == old(text)@ + tail@,
;

/// `show` can be called on every cell of the matrix.
pub open spec fn can_write<T, F: Fn(T) -> String>(show: F, matrix: MatrixView<T>) -> bool {
    forall|p: int| 0 <= p < matrix.cells.len() ==> call_requires(show, (#[trigger] matrix.cells[p],))
}

/// `show` can be called on every weight and bias of the layer.
pub open spec fn can_write_layer<T, F: Fn(T) -> String>(show: F, layer: LayerView<T>) -> bool {
    can_write(show, layer.weights) && can_write(show, layer.biases)
}

/// `show` can be called on every weight and bias of the network.
pub open spec fn can_write_network<T, F: Fn(T) -> String>(show: F, net: Seq<LayerView<T>>) -> bool {
    forall|l: int| 0 <= l < net.len() ==> can_write_layer(show, #[trigger] net[l])
}

/// What follows cell number `n`, counted from one, of `count` cells laid out
/// in rows of `cols`: the closing bracket after the last cell, a line break
/// and an indent after the last cell of any other row, nothing otherwise.
pub open spec fn cell_end(cols: nat, count: nat, n: nat) -> Seq<char> {
    if n >= count {
        "]"@
    } else if n % cols == 0 {
        "\n   "@
    } else {
        Seq::empty()
    }
}

/// The first `n` of `count` cells written out: each cell's text, a blank,
/// and what follows the cell.
pub open spec fn rendered_cells(cols: nat, count: nat, texts: Seq<Seq<char>>, n: nat) -> Seq<char>
    decreases n,
{
    if n == 0 {
        Seq::empty()
    } else {
        rendered_cells(cols, count, texts, (n - 1) as nat) + texts[n - 1] + " "@ + cell_end(
            cols,
            count,
            n,
        )
    }
}

/// A matrix written out, given the text of each of its cells in row-major
/// order: `[]` when there is no cell, else the cells between brackets, one
/// row per line.
pub open spec fn rendered(cols: nat, texts: Seq<Seq<char>>) -> Seq<char> {
    if texts.len() == 0 {
        "[]"@
    } else {
        "[ "@ + rendered_cells(cols, texts.len(), texts, texts.len())
    }
}

/// `text` is the matrix written out, with every cell written as `show` may
/// write it.
pub open spec fn renders<T, F: Fn(T) -> String>(show: F, matrix: MatrixView<T>, text: Seq<char>) -> bool {
    exists|parts: Seq<String>| #[trigger]
        shown(show, matrix.cells, parts) && text == rendered(matrix.cols, string_views(parts))
}

/// `parts` holds, for every cell in order, a text that `show` may return for
/// it.
pub open spec fn shown<T, F: Fn(T) -> String>(show: F, cells: Seq<T>, parts: Seq<String>) -> bool {
    &&& parts.len() == cells.len()
    &&& forall|p: int| 0 <= p < cells.len() ==> call_ensures(show, (cells[p],), #[trigger] parts[p])
}

/// The characters of each string, in the same order.
pub open spec fn string_views(parts: Seq<String>) -> Seq<Seq<char>> {
    Seq::new(parts.len(), |p: int| parts[p]@)
}

/// A layer written out, given its weights and its biases written out.
pub open spec fn layer_text(weights: Seq<char>, biases: Seq<char>) -> Seq<char> {
    "Weights:\n "@ + weights + "\nBiases: \n "@ + biases
}

/// `text` is the layer written out, with every cell written as `show` may
/// write it.
pub open spec fn renders_layer<T, F: Fn(T) -> String>(show: F, layer: LayerView<T>, text: Seq<char>) -> bool {
    exists|weights: Seq<char>, biases: Seq<char>| #[trigger]
        renders(show, layer.weights, weights) && #[trigger] renders(show, layer.biases, biases)
            && text == layer_text(weights, biases)
}

/// The first `n` layers of a network written out, each on lines of its own
/// after an empty line.
pub open spec fn network_text(layers: Seq<Seq<char>>, n: nat) -> Seq<char>
    decreases n,
{
    if n == 0 {
        Seq::empty()
    } else {
        network_text(layers, (n - 1) as nat) + "\n"@ + layers[n - 1] + "\n"@
    }
}

/// `text` is the network written out, with every cell written as `show` may
/// write it.
pub open spec fn renders_network<T, F: Fn(T) -> String>(
    show: F,
    net: Seq<LayerView<T>>,
    text: Seq<char>,
) -> bool {
    exists|layers: Seq<Seq<char>>| #[trigger]
        shown_layers(show, net, layers) && text == network_text(layers, layers.len())
}

/// `layers` holds every layer of the network written out.
pub open spec fn shown_layers<T, F: Fn(T) -> String>(
    show: F,
    net: Seq<LayerView<T>>,
    layers: Seq<Seq<char>>,
) -> bool {
    &&& layers.len() == net.len()
    &&& forall|l: int| 0 <= l < net.len() ==> renders_layer(show, net[l], #[trigger] layers[l])
}

/// What is written for the first `n` cells does not depend on the texts of
/// later cells.
pub proof fn lemma_rendered_cells_prefix(
    cols: nat,
    count: nat,
    a: Seq<Seq<char>>,
    b: Seq<Seq<char>>,
    n: nat,
)
    requires
        n <= a.len(),
        n <= b.len(),
        forall|p: int| 0 <= p < n ==> a[p] == b[p],
    ensures
        rendered_cells(cols, count, a, n) == rendered_cells(cols, count, b, n),
    decreases n,
{
    if n > 0 {
        lemma_rendered_cells_prefix(cols, count, a, b, (n - 1) as nat);
    }
}

/// The layers written before do not depend on later ones.
pub proof fn lemma_network_text_prefix(a: Seq<Seq<char>>, b: Seq<Seq<char>>, n: nat)
    requires
        n <= a.len(),
        n <= b.len(),
        forall|p: int| 0 <= p < n ==> a[p] == b[p],
    ensures
        network_text(a, n) == network_text(b, n),
    decreases n,
{
    if n > 0 {
        lemma_network_text_prefix(a, b, (n - 1) as nat);
    }
}

} // verus!
