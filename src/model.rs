use vstd::prelude::*;

use crate::error::Error;
use crate::features::entries_view;

verus! {

/// Activation applied element-wise after a layer.
#[derive(PartialEq, Eq, Structural, Clone, Copy, Debug)]
pub enum Activation {
    Identity,
    Relu,
    Tanh,
    Sigmoid,
}

/// Linear rescaling of one value; both numbers are `f32` bit patterns.
#[derive(PartialEq, Eq, Structural, Clone, Copy, Debug)]
pub struct Norm {
    pub offset: u32,
    pub scale: u32,
}

/// One layer: `weights` is `rows` by `cols`, row after row, and `bias` has `rows`
/// entries; every number is an `f32` bit pattern.
#[derive(Clone, Debug)]
pub struct Layer {
    pub rows: u32,
    pub cols: u32,
    pub weights: Vec<u32>,
    pub bias: Vec<u32>,
    pub activation: Activation,
}

pub struct LayerView {
    pub rows: u32,
    pub cols: u32,
    pub weights: Seq<u32>,
    pub bias: Seq<u32>,
    pub activation: Activation,
}

impl View for Layer {
    type V = LayerView;

    open spec fn view(&self) -> LayerView {
        LayerView {
            rows: self.rows,
            cols: self.cols,
            weights: self.weights@,
            bias: self.bias@,
            activation: self.activation,
        }
    }
}

/// A feed-forward regression model: the names of its inputs in their order, one
/// input rescaling per name, a stack of layers, and the rescaling of the output.
#[derive(Clone, Debug)]
pub struct ModelData {
    pub features: Vec<Vec<u8>>,
    pub input_norm: Vec<Norm>,
    pub layers: Vec<Layer>,
    pub output_norm: Norm,
}

pub struct ModelView {
    pub features: Seq<Seq<u8>>,
    pub input_norm: Seq<Norm>,
    pub layers: Seq<LayerView>,
    pub output_norm: Norm,
}

impl View for ModelData {
    type V = ModelView;

    open spec fn view(&self) -> ModelView {
        ModelView {
            features: self.features@.map_values(|n: Vec<u8>| n@),
            input_norm: self.input_norm@,
            layers: self.layers@.map_values(|l: Layer| l@),
            output_norm: self.output_norm,
        }
    }
}

impl LayerView {
    pub open spec fn wf(&self) -> bool {
        &&& self.weights.len() == self.rows * self.cols
        &&& self.bias.len() == self.rows
    }
}

impl ModelView {
    /// Shapes agree: one rescaling per input, the first layer reads the inputs, each
    /// layer reads what the one before wrote, and the last one writes one value.
    pub open spec fn wf(&self) -> bool {
        &&& self.features.len() < 0x1_0000_0000
        &&& forall|i: int| 0 <= i < self.features.len() ==> #[trigger] self.features[i].len() < 0x1_0000_0000
        &&& self.input_norm.len() == self.features.len()
        &&& 0 < self.layers.len() < 0x1_0000_0000
        &&& forall|i: int| 0 <= i < self.layers.len() ==> #[trigger] self.layers[i].wf()
        &&& self.layers[0].cols == self.features.len()
        &&& forall|i: int|
            0 < i < self.layers.len() ==> #[trigger] self.layers[i].cols == self.layers[i - 1].rows
        &&& self.layers.last().rows == 1
    }
}

/// Value of the first entry named `name`, if any.
pub open spec fn spec_lookup(entries: Seq<(Seq<u8>, int)>, name: Seq<u8>) -> Option<int>
    decreases entries.len(),
{
    if entries.len() == 0 {
        None
    } else if entries[0].0 == name {
        Some(entries[0].1)
    } else {
        spec_lookup(entries.drop_first(), name)
    }
}

/// The values of `names`, in their order, when every one of them is present.
pub open spec fn spec_gather(names: Seq<Seq<u8>>, entries: Seq<(Seq<u8>, int)>) -> Option<Seq<int>> {
    if forall|i: int| 0 <= i < names.len() ==> (#[trigger] spec_lookup(entries, names[i])) is Some {
        Some(Seq::new(names.len(), |i: int| spec_lookup(entries, names[i]).unwrap()))
    } else {
        None
    }
}

fn bytes_eq(a: &Vec<u8>, b: &Vec<u8>) -> (r: bool)
    ensures
        r == (a@ == b@),
{
    if a.len() != b.len() {
        return false;
    }
    let mut i: usize = 0;
    while i < a.len()
        invariant
            i <= a@.len(),
            a@.len() == b@.len(),
            a@.subrange(0, i as int) == b@.subrange(0, i as int),
        decreases a@.len() - i,
    {
        if a[i] != b[i] {
            assert(a@[i as int] != b@[i as int]);
            return false;
        }
        assert(a@.subrange(0, i as int + 1) =~= a@.subrange(0, i as int).push(a@[i as int]));
        assert(b@.subrange(0, i as int + 1) =~= b@.subrange(0, i as int).push(b@[i as int]));
        i = i + 1;
    }
    assert(a@ =~= a@.subrange(0, i as int));
    assert(b@ =~= b@.subrange(0, i as int));
    true
}

/// Value of the first entry of `entries` named `name`.
pub fn lookup(entries: &Vec<(Vec<u8>, i128)>, name: &Vec<u8>) -> (r: Option<i128>)
    ensures
        match r {
            Some(v) => spec_lookup(entries_view(entries@), name@) == Some(v as int),
            None => spec_lookup(entries_view(entries@), name@) is None,
        },
{
    let ghost all = entries_view(entries@);
    let mut k: usize = 0;
    assert(all.skip(0) =~= all);
    while k < entries.len()
        invariant
            k <= entries@.len(),
            all == entries_view(entries@),
            spec_lookup(all, name@) == spec_lookup(all.skip(k as int), name@),
        decreases entries@.len() - k,
    {
        let ghost rest = all.skip(k as int);
        assert(rest[0] == all[k as int]);
        assert(rest.drop_first() =~= all.skip(k as int + 1));
        if bytes_eq(&entries[k].0, name) {
            return Some(entries[k].1);
        }
        k = k + 1;
    }
    assert(all.skip(k as int).len() == 0);
    None
}

impl ModelData {
    /// Whether the shapes of the model agree.
    pub fn is_well_formed(&self) -> (r: bool)
        ensures
            r == self@.wf(),
    {
        let ghost m = self@;
        let nf = self.features.len();
        if nf > u32::MAX as usize {
            return false;
        }
        let mut i: usize = 0;
        while i < nf
            invariant
                i <= nf,
                nf == m.features.len(),
                m == self@,
                forall|j: int| 0 <= j < i ==> #[trigger] m.features[j].len() < 0x1_0000_0000,
            decreases nf - i,
        {
            if self.features[i].len() > u32::MAX as usize {
                assert(m.features[i as int].len() >= 0x1_0000_0000);
                return false;
            }
            i = i + 1;
        }
        if self.input_norm.len() != nf {
            return false;
        }
        let nl = self.layers.len();
        if nl == 0 || nl > u32::MAX as usize {
            return false;
        }
        let mut k: usize = 0;
        while k < nl
            invariant
                k <= nl,
                nl == m.layers.len(),
                nf == m.features.len(),
                m == self@,
                forall|j: int| 0 <= j < k ==> #[trigger] m.layers[j].wf(),
                k > 0 ==> m.layers[0].cols == nf,
                forall|j: int| 0 < j < k ==> #[trigger] m.layers[j].cols == m.layers[j - 1].rows,
            decreases nl - k,
        {
            let layer = &self.layers[k];
            assert(m.layers[k as int] == layer@);
            let (rows, cols) = (layer.rows, layer.cols);
            assert(rows * cols <= u32::MAX * u32::MAX) by (nonlinear_arith)
                requires
                    rows <= u32::MAX,
                    cols <= u32::MAX,
            ;
            if layer.weights.len() as u64 != rows as u64 * cols as u64 {
                assert(!m.layers[k as int].wf());
                return false;
            }
            if layer.bias.len() != layer.rows as usize {
                assert(!m.layers[k as int].wf());
                return false;
            }
            if k == 0 {
                if layer.cols as usize != nf {
                    return false;
                }
            } else {
                assert(m.layers[k - 1] == self.layers@[k - 1]@);
                if layer.cols != self.layers[k - 1].rows {
                    assert(m.layers[k as int].cols != m.layers[k - 1].rows);
                    return false;
                }
            }
            k = k + 1;
        }
        assert(m.layers.last() == self.layers@[nl - 1]@);
        self.layers[nl - 1].rows == 1
    }

    /// The model's inputs taken from `entries` in the model's own order, or
    /// `MissingFeature` when a declared name is absent.
    pub fn gather(&self, entries: &Vec<(Vec<u8>, i128)>) -> (r: Result<Vec<i128>, Error>)
        ensures
            match r {
                Ok(v) => spec_gather(self@.features, entries_view(entries@)) == Some(
                    v@.map_values(|x: i128| x as int),
                ),
                Err(e) => e == Error::MissingFeature && spec_gather(
                    self@.features,
                    entries_view(entries@),
                ) is None,
            },
    {
        let ghost names = self@.features;
        let ghost all = entries_view(entries@);
        let mut out: Vec<i128> = Vec::new();
        let mut i: usize = 0;
        while i < self.features.len()
            invariant
                i <= self.features@.len(),
                names == self@.features,
                all == entries_view(entries@),
                out@.len() == i,
                forall|j: int|
                    0 <= j < i ==> spec_lookup(all, names[j]) == Some(out@[j] as int),
            decreases self.features@.len() - i,
        {
            match lookup(entries, &self.features[i]) {
                Some(v) => {
                    out.push(v);
                },
                None => {
                    assert(spec_lookup(all, names[i as int]) is None);
                    return Err(Error::MissingFeature);
                },
            }
            i = i + 1;
        }
        assert(out@.map_values(|x: i128| x as int) =~= Seq::new(
            names.len(),
            |j: int| spec_lookup(all, names[j]).unwrap(),
        ));
        Ok(out)
    }
}

} // verus!
