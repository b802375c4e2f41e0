//! Inference runtime configuration: execution providers, session knobs and
//! the backend handle that records which model file was loaded.

use vstd::prelude::*;
use crate::types::Polarity;

verus! {

/// Execution providers, in the order the runtime tries them by default.
/// CPU is the always-on fallback.
#[derive(Debug, Clone, Copy, PartialEq, Eq, Structural)]
pub enum ExecutionProvider {
    TensorRt,
    Cuda,
    CoreMl,
    DirectMl,
    Cpu,
}

/// Display name of an execution provider.
pub open spec fn provider_name(p: ExecutionProvider) -> Seq<char> {
    match p {
        ExecutionProvider::TensorRt => "TensorRT"@,
        ExecutionProvider::Cuda => "CUDA"@,
        ExecutionProvider::CoreMl => "CoreML"@,
        ExecutionProvider::DirectMl => "DirectML"@,
        ExecutionProvider::Cpu => "CPU"@,
    }
}

impl ExecutionProvider {
    /// Human-readable name of the provider.
    pub fn name(self) -> (s: &'static str)
        ensures
            s@ == provider_name(self),
    {
        match self {
            ExecutionProvider::TensorRt => "TensorRT",
            ExecutionProvider::Cuda => "CUDA",
            ExecutionProvider::CoreMl => "CoreML",
            ExecutionProvider::DirectMl => "DirectML",
            ExecutionProvider::Cpu => "CPU",
        }
    }
}

/// Runtime configuration: which providers to try, in what order, and how
/// to configure the session.
#[derive(Debug, Clone)]
pub struct RuntimeConfig {
    /// Ordered list of execution providers to attempt.
    pub ep_priority: Vec<ExecutionProvider>,
    /// Number of intra-op threads; `None` lets the runtime pick.
    pub intra_threads: Option<usize>,
    /// Number of inter-op threads.
    pub inter_threads: Option<usize>,
    /// Optimization level: 0 = none, 1 = basic, 2 = extended, 3 = all.
    pub optimization_level: u8,
}

/// The default provider priority: TensorRT, CUDA, CoreML, DirectML, CPU.
pub open spec fn default_priority() -> Seq<ExecutionProvider> {
    seq![
        ExecutionProvider::TensorRt,
        ExecutionProvider::Cuda,
        ExecutionProvider::CoreMl,
        ExecutionProvider::DirectMl,
        ExecutionProvider::Cpu,
    ]
}

impl RuntimeConfig {
    /// Every provider in priority order, runtime-chosen thread counts and
    /// full graph optimization.
    pub fn default_config() -> (c: RuntimeConfig)
        ensures
            c.ep_priority@ == default_priority(),
            c.intra_threads is None,
            c.inter_threads is None,
            c.optimization_level == 3,
    {
        let mut ep_priority: Vec<ExecutionProvider> = Vec::new();
        ep_priority.push(ExecutionProvider::TensorRt);
        ep_priority.push(ExecutionProvider::Cuda);
        ep_priority.push(ExecutionProvider::CoreMl);
        ep_priority.push(ExecutionProvider::DirectMl);
        ep_priority.push(ExecutionProvider::Cpu);
        assert(ep_priority@ =~= default_priority());
        RuntimeConfig { ep_priority, intra_threads: None, inter_threads: None, optimization_level: 3 }
    }
}

impl Default for RuntimeConfig {
    fn default() -> (c: RuntimeConfig)
        ensures
            c.ep_priority@ == default_priority(),
            c.intra_threads is None,
            c.inter_threads is None,
            c.optimization_level == 3,
    {
        RuntimeConfig::default_config()
    }
}

/// Errors of the backend.
#[derive(Debug, Clone, PartialEq, Eq)]
pub enum BackendError {
    ModelMissing(String),
    NoEpAvailable,
    Other(String),
}

/// Human-readable text of a backend error.
pub open spec fn backend_error_text(e: BackendError) -> Seq<char> {
    match e {
        BackendError::ModelMissing(p) => "model file not found: "@ + p@,
        BackendError::NoEpAvailable => "failed to initialize any execution provider"@,
        BackendError::Other(m) => "runtime error: "@ + m@,
    }
}

impl BackendError {
    /// Human-readable text of the error.
    pub fn message(&self) -> (s: String)
        ensures
            s@ == backend_error_text(*self),
    {
        match self {
            BackendError::ModelMissing(p) => {
                let mut s = String::from_str("model file not found: ");
                s.append(p.as_str());
                s
            },
            BackendError::NoEpAvailable => String::from_str(
                "failed to initialize any execution provider",
            ),
            BackendError::Other(m) => {
                let mut s = String::from_str("runtime error: ");
                s.append(m.as_str());
                s
            },
        }
    }
}

/// Handle to a loaded model: the file it came from and the execution
/// provider that was chosen for it.
#[derive(Debug)]
pub struct Backend {
    model_path: String,
    chosen_ep: ExecutionProvider,
}

/// Whether a file system entry exists at `path`.
///
/// Calls `std::path::Path::exists`. Nothing is claimed of the result: it
/// depends on the file system at the time of the call.
#[verifier::external_body]
fn path_exists(path: &str) -> bool {
    std::path::Path::new(path).exists()
}

impl Backend {
    /// The model file this backend was loaded from.
    pub closed spec fn spec_model_path(&self) -> Seq<char> {
        self.model_path@
    }

    /// The execution provider in use.
    pub closed spec fn spec_execution_provider(&self) -> ExecutionProvider {
        self.chosen_ep
    }

    /// Decide the outcome of a load from whether the model file was found:
    /// a missing file is `ModelMissing`; otherwise the backend records the
    /// path and runs on the CPU provider.
    pub fn from_probe(model_path: String, exists: bool, config: &RuntimeConfig) -> (r: Result<
        Backend,
        BackendError,
    >)
        ensures
            exists ==> r is Ok && r->Ok_0.spec_model_path() == model_path@
                && r->Ok_0.spec_execution_provider() == ExecutionProvider::Cpu,
            !exists ==> r == Err::<Backend, BackendError>(BackendError::ModelMissing(model_path)),
    {
        if !exists {
            return Err(BackendError::ModelMissing(model_path));
        }
        Ok(Backend { model_path, chosen_ep: ExecutionProvider::Cpu })
    }

    /// Load a model from `model_path`. Fails with `ModelMissing` when no file
    /// exists there; a loaded backend records the path and runs on the CPU
    /// provider.
    pub fn load(model_path: String, config: &RuntimeConfig) -> (r: Result<Backend, BackendError>)
        ensures
            r is Ok ==> r->Ok_0.spec_model_path() == model_path@
                && r->Ok_0.spec_execution_provider() == ExecutionProvider::Cpu,
            r is Err ==> r == Err::<Backend, BackendError>(BackendError::ModelMissing(model_path)),
    {
        let exists = path_exists(model_path.as_str());
        Backend::from_probe(model_path, exists, config)
    }

    /// The model file this backend was loaded from.
    pub fn model_path(&self) -> (p: &str)
        ensures
            p@ == self.spec_model_path(),
    {
        self.model_path.as_str()
    }

    /// The execution provider in use.
    pub fn execution_provider(&self) -> (ep: ExecutionProvider)
        ensures
            ep == self.spec_execution_provider(),
    {
        self.chosen_ep
    }
}

/// Channel of a `[1, 2, H, W]` click map that clicks of polarity `p` are
/// painted on: 0 for positive, 1 for negative.
pub fn channel_for_polarity(p: Polarity) -> (ch: usize)
    ensures
        p == Polarity::Positive ==> ch == 0,
        p == Polarity::Negative ==> ch == 1,
{
    match p {
        Polarity::Positive => 0,
        Polarity::Negative => 1,
    }
}

/// Pixel window `(y0, y1, x0, x1)`, inclusive, of a disk of `radius`
/// around `(cx, cy)` clipped to an `h`×`w` canvas; `None` when nothing of
/// it is on the canvas.
pub open spec fn disk_window_spec(cx: int, cy: int, radius: int, h: int, w: int) -> Option<
    (int, int, int, int),
> {
    let y0 = if cy - radius > 0 {
        cy - radius
    } else {
        0
    };
    let y1 = if cy + radius < h - 1 {
        cy + radius
    } else {
        h - 1
    };
    let x0 = if cx - radius > 0 {
        cx - radius
    } else {
        0
    };
    let x1 = if cx + radius < w - 1 {
        cx + radius
    } else {
        w - 1
    };
    if y0 > y1 || x0 > x1 {
        None
    } else {
        Some((y0, y1, x0, x1))
    }
}

/// Coordinate `v` lies on an axis of length `n` within `radius` of `c`.
pub open spec fn near_on_axis(v: int, c: int, radius: int, n: int) -> bool {
    0 <= v < n && c - radius <= v && v <= c + radius
}

/// Coordinate `v` lies in the inclusive range `lo..=hi`.
pub open spec fn in_span(v: int, lo: int, hi: int) -> bool {
    lo <= v && v <= hi
}

/// The window of a click disk is exactly the canvas rows within `radius`
/// of the centre row and the canvas columns within `radius` of the centre
/// column: a row lies in `y0..=y1` iff it is on the canvas and at most
/// `radius` from `cy`, a column lies in `x0..=x1` iff it is on the canvas
/// and at most `radius` from `cx`; there is no window iff one of these
/// sets is empty. In particular a centre on the canvas lies in its window.
pub proof fn lemma_disk_window_exact(cx: int, cy: int, radius: int, h: int, w: int)
    ensures
        match disk_window_spec(cx, cy, radius, h, w) {
            Some(t) => {
                &&& forall|y: int| #[trigger] in_span(y, t.0, t.1) <==> near_on_axis(y, cy, radius, h)
                &&& forall|x: int| #[trigger] in_span(x, t.2, t.3) <==> near_on_axis(x, cx, radius, w)
            },
            None => {
                ||| forall|y: int| !#[trigger] near_on_axis(y, cy, radius, h)
                ||| forall|x: int| !#[trigger] near_on_axis(x, cx, radius, w)
            },
        },
        radius >= 0 && 0 <= cy < h && 0 <= cx < w ==> match disk_window_spec(cx, cy, radius, h, w) {
            Some(t) => t.0 <= cy <= t.1 && t.2 <= cx <= t.3,
            None => false,
        },
{
}

/// The canvas pixels a click disk paints: the square of `radius` around
/// the rounded centre `(cx, cy)`, clipped to the `h`×`w` canvas, so that
/// disks at the edge paint their visible part.
pub fn disk_window(cx: i32, cy: i32, radius: i32, h: i32, w: i32) -> (r: Option<(i32, i32, i32, i32)>)
    ensures
        match disk_window_spec(cx as int, cy as int, radius as int, h as int, w as int) {
            Some(t) => r == Some((t.0 as i32, t.1 as i32, t.2 as i32, t.3 as i32)),
            None => r is None,
        },
        match r {
            Some((y0, y1, x0, x1)) => 0 <= y0 <= y1 < h && 0 <= x0 <= x1 < w,
            None => true,
        },
{
    let (cx, cy, radius, h, w) = (cx as i64, cy as i64, radius as i64, h as i64, w as i64);
    let y0 = if cy - radius > 0 {
        cy - radius
    } else {
        0
    };
    let y1 = if cy + radius < h - 1 {
        cy + radius
    } else {
        h - 1
    };
    let x0 = if cx - radius > 0 {
        cx - radius
    } else {
        0
    };
    let x1 = if cx + radius < w - 1 {
        cx + radius
    } else {
        w - 1
    };
    if y0 > y1 || x0 > x1 {
        None
    } else {
        Some((y0 as i32, y1 as i32, x0 as i32, x1 as i32))
    }
}

} // verus!
