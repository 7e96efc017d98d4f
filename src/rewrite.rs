use vstd::prelude::*;

use crate::error::{ErrorModel, RawImportError};
use crate::resolve::{RawImport, ResolverModel, resolution};
use crate::text::string_of;

verus! {

/// One binding of an import declaration.
#[derive(Debug)]
pub enum Specifier {
    /// `import name from "..."`
    Default { local: String },
    /// `import { name } from "..."`
    Named { local: String },
    /// `import * as name from "..."`
    Namespace { local: String },
}

/// A top-level statement of a module, as far as the rewrite looks at it.
#[derive(Debug)]
pub enum ModuleItem {
    /// An import declaration: its module specifier text and its bindings.
    Import { source: String, specifiers: Vec<Specifier> },
    /// Any other statement.
    Other,
}

/// One step of a rewrite plan.
#[derive(Debug)]
pub enum Step {
    /// Emit the input item at `index` unchanged.
    Keep { index: usize },
    /// Read the file at `path` and bind its text to the constant `local`,
    /// in place of the import at `index`.
    Load { index: usize, local: String, path: String },
}

pub ghost enum StepModel {
    Keep(int),
    Load(int, Seq<char>, Seq<char>),
}

impl View for Step {
    type V = StepModel;

    open spec fn view(&self) -> StepModel {
        match self {
            Step::Keep { index } => StepModel::Keep(*index as int),
            Step::Load { index, local, path } => StepModel::Load(*index as int, local@, path@),
        }
    }
}

/// What a module's rewrite does, up to the first error found without reading
/// any file.
#[derive(Debug)]
pub struct Plan {
    pub steps: Vec<Step>,
    pub stop: Option<RawImportError>,
}

pub ghost struct PlanModel {
    pub steps: Seq<StepModel>,
    pub stop: Option<ErrorModel>,
}

impl View for Plan {
    type V = PlanModel;

    open spec fn view(&self) -> PlanModel {
        PlanModel {
            steps: self.steps@.map_values(|s: Step| s@),
            stop: match self.stop {
                Some(e) => Some(e@),
                None => None,
            },
        }
    }
}

/// One statement of the rewritten module.
#[derive(Debug)]
pub enum Emit {
    /// The input item at `index`, unchanged.
    Keep { index: usize },
    /// `const local = "content";`, in place of the import at `index`.
    Const { index: usize, local: String, content: String },
}

pub ghost enum EmitModel {
    Keep(int),
    Const(int, Seq<char>, Seq<char>),
}

impl View for Emit {
    type V = EmitModel;

    open spec fn view(&self) -> EmitModel {
        match self {
            Emit::Keep { index } => EmitModel::Keep(*index as int),
            Emit::Const { index, local, content } => EmitModel::Const(*index as int, local@, content@),
        }
    }
}

/// `?raw` starts at index `i` of `s`.
pub open spec fn marker_at(s: Seq<char>, i: int) -> bool {
    0 <= i && i + 4 <= s.len() && s[i] == '?' && s[i + 1] == 'r' && s[i + 2] == 'a' && s[i + 3]
        == 'w'
}

/// The first index at or after `i` where `?raw` starts in `s`.
pub open spec fn marker_from(s: Seq<char>, i: int) -> Option<int>
    decreases s.len() - i,
{
    if i < 0 || i + 4 > s.len() {
        None
    } else if marker_at(s, i) {
        Some(i)
    } else {
        marker_from(s, i + 1)
    }
}

/// The plan for the first `m` bindings of a `?raw` import whose specifier
/// text is `source` and whose raw path is `raw`, after `steps`.
pub open spec fn plan_specifiers(
    r: ResolverModel,
    index: int,
    source: Seq<char>,
    raw: Seq<char>,
    specs: Seq<Specifier>,
    m: int,
    steps: Seq<StepModel>,
) -> PlanModel
    decreases m,
{
    if m <= 0 {
        PlanModel { steps, stop: None }
    } else {
        let before = plan_specifiers(r, index, source, raw, specs, m - 1, steps);
        if before.stop is Some {
            before
        } else {
            match specs[m - 1] {
                Specifier::Default { local } => match resolution(r, raw) {
                    Ok(path) => PlanModel {
                        steps: before.steps.push(StepModel::Load(index, local@, path)),
                        stop: None,
                    },
                    Err(e) => PlanModel { steps: before.steps, stop: Some(e) },
                },
                _ => PlanModel {
                    steps: before.steps,
                    stop: Some(ErrorModel::UnsupportedSpecifier(source)),
                },
            }
        }
    }
}

/// The plan for the item at `index`, after `steps`: an item that is not an
/// import of a `?raw` specifier is kept; each binding of one is loaded from
/// the path before the first `?raw`, or stops the plan.
pub open spec fn plan_item(r: ResolverModel, item: ModuleItem, index: int, steps: Seq<StepModel>) -> PlanModel {
    match item {
        ModuleItem::Import { source, specifiers } => match marker_from(source@, 0) {
            Some(k) => plan_specifiers(
                r,
                index,
                source@,
                source@.take(k),
                specifiers@,
                specifiers@.len() as int,
                steps,
            ),
            None => PlanModel { steps: steps.push(StepModel::Keep(index)), stop: None },
        },
        ModuleItem::Other => PlanModel { steps: steps.push(StepModel::Keep(index)), stop: None },
    }
}

/// The plan for the first `n` items, taken in order, up to the first stop.
pub open spec fn plan_items(r: ResolverModel, items: Seq<ModuleItem>, n: int) -> PlanModel
    decreases n,
{
    if n <= 0 {
        PlanModel { steps: Seq::empty(), stop: None }
    } else {
        let before = plan_items(r, items, n - 1);
        if before.stop is Some {
            before
        } else {
            plan_item(r, items[n - 1], n - 1, before.steps)
        }
    }
}

/// The text that a file read gave, or why it failed.
pub open spec fn read_model(o: Result<String, String>) -> Result<Seq<char>, Seq<char>> {
    match o {
        Ok(c) => Ok(c@),
        Err(e) => Err(e@),
    }
}

/// The output of the first `n` steps, and the number of reads they used;
/// the `k`-th load takes the `k`-th read, and a missing read fails with no
/// cause given.
pub open spec fn assemble_steps(
    steps: Seq<StepModel>,
    reads: Seq<Result<Seq<char>, Seq<char>>>,
    n: int,
) -> Result<(Seq<EmitModel>, int), ErrorModel>
    decreases n,
{
    if n <= 0 {
        Ok((Seq::empty(), 0))
    } else {
        match assemble_steps(steps, reads, n - 1) {
            Err(e) => Err(e),
            Ok((out, k)) => match steps[n - 1] {
                StepModel::Keep(i) => Ok((out.push(EmitModel::Keep(i)), k)),
                StepModel::Load(index, local, path) => if k < reads.len() {
                    match reads[k] {
                        Ok(content) => Ok((out.push(EmitModel::Const(index, local, content)), k + 1)),
                        Err(cause) => Err(ErrorModel::FileReadError(path, cause)),
                    }
                } else {
                    Err(ErrorModel::FileReadError(path, Seq::empty()))
                },
            },
        }
    }
}

/// The rewritten module: the first failed read in step order, else the
/// plan's stop, else every step's output.
pub open spec fn assembled(plan: PlanModel, reads: Seq<Result<Seq<char>, Seq<char>>>) -> Result<
    Seq<EmitModel>,
    ErrorModel,
> {
    match assemble_steps(plan.steps, reads, plan.steps.len() as int) {
        Err(e) => Err(e),
        Ok((out, _)) => match plan.stop {
            Some(e) => Err(e),
            None => Ok(out),
        },
    }
}

pub open spec fn emits_model(r: Result<Vec<Emit>, RawImportError>) -> Result<Seq<EmitModel>, ErrorModel> {
    match r {
        Ok(v) => Ok(v@.map_values(|e: Emit| e@)),
        Err(e) => Err(e@),
    }
}

proof fn lemma_plan_items_stop(r: ResolverModel, items: Seq<ModuleItem>, a: int, b: int)
    requires
        0 <= a <= b,
        plan_items(r, items, a).stop is Some,
    ensures
        plan_items(r, items, b) == plan_items(r, items, a),
    decreases b - a,
{
    if a < b {
        lemma_plan_items_stop(r, items, a, b - 1);
    }
}

proof fn lemma_plan_specifiers_stop(
    r: ResolverModel,
    index: int,
    source: Seq<char>,
    raw: Seq<char>,
    specs: Seq<Specifier>,
    a: int,
    b: int,
    steps: Seq<StepModel>,
)
    requires
        0 <= a <= b,
        plan_specifiers(r, index, source, raw, specs, a, steps).stop is Some,
    ensures
        plan_specifiers(r, index, source, raw, specs, b, steps) == plan_specifiers(r, index, source, raw, specs, a, steps),
    decreases b - a,
{
    if a < b {
        lemma_plan_specifiers_stop(r, index, source, raw, specs, a, b - 1, steps);
    }
}

proof fn lemma_assemble_err(steps: Seq<StepModel>, reads: Seq<Result<Seq<char>, Seq<char>>>, a: int, b: int)
    requires
        0 <= a <= b,
        assemble_steps(steps, reads, a) is Err,
    ensures
        assemble_steps(steps, reads, b) == assemble_steps(steps, reads, a),
    decreases b - a,
{
    if a < b {
        lemma_assemble_err(steps, reads, a, b - 1);
    }
}

proof fn lemma_marker_bound(s: Seq<char>, i: int)
    requires
        marker_from(s, i) is Some,
    ensures
        marker_from(s, i)->0 + 4 <= s.len(),
    decreases s.len() - i,
{
    if !(i < 0 || i + 4 > s.len()) && !marker_at(s, i) {
        lemma_marker_bound(s, i + 1);
    }
}

/// Where `?raw` first starts in `s`.
pub fn find_marker(s: &Vec<char>) -> (r: Option<usize>)
    ensures
        r matches Some(k) ==> marker_from(s@, 0) == Some(k as int) && k + 4 <= s@.len(),
        r is None ==> marker_from(s@, 0) is None,
{
    let n = s.len();
    if n < 4 {
        return None;
    }
    let mut i: usize = 0;
    while i <= n - 4
        invariant
            n == s@.len(),
            4 <= n,
            i <= n - 3,
            marker_from(s@, 0) == marker_from(s@, i as int),
        decreases n - i,
    {
        if s[i] == '?' && s[i + 1] == 'r' && s[i + 2] == 'a' && s[i + 3] == 'w' {
            proof {
                lemma_marker_bound(s@, 0);
            }
            return Some(i);
        }
        i = i + 1;
    }
    None
}

fn clone_error(e: &RawImportError) -> (r: RawImportError)
    ensures
        r@ == e@,
{
    match e {
        RawImportError::MissingConfiguration => RawImportError::MissingConfiguration,
        RawImportError::SandboxedEnvironment { root } => RawImportError::SandboxedEnvironment {
            root: root.clone(),
        },
        RawImportError::UnsupportedSpecifier { source } => RawImportError::UnsupportedSpecifier {
            source: source.clone(),
        },
        RawImportError::InvalidPath { path } => RawImportError::InvalidPath { path: path.clone() },
        RawImportError::FileReadError { path, cause } => RawImportError::FileReadError {
            path: path.clone(),
            cause: cause.clone(),
        },
    }
}

/// The paths of the load steps among `steps`, in order.
pub open spec fn load_paths(steps: Seq<StepModel>) -> Seq<Seq<char>>
    decreases steps.len(),
{
    if steps.len() == 0 {
        Seq::empty()
    } else {
        match steps.last() {
            StepModel::Load(_, _, p) => load_paths(steps.drop_last()).push(p),
            StepModel::Keep(_) => load_paths(steps.drop_last()),
        }
    }
}

impl Plan {
    /// The files that the plan reads, in the order it reads them.
    pub fn requested_paths(&self) -> (r: Vec<String>)
        ensures
            r@.map_values(|s: String| s@) == load_paths(self@.steps),
    {
        let mut r: Vec<String> = Vec::new();
        let mut i: usize = 0;
        let ghost steps = self@.steps;
        while i < self.steps.len()
            invariant
                i <= self.steps@.len(),
                steps == self@.steps,
                steps.len() == self.steps@.len(),
                r@.map_values(|s: String| s@) == load_paths(steps.take(i as int)),
            decreases self.steps@.len() - i,
        {
            proof {
                assert(steps.take(i + 1).drop_last() =~= steps.take(i as int));
                assert(steps[i as int] == self.steps@[i as int]@);
                assert(steps.take(i + 1).last() == steps[i as int]);
            }
            let ghost before = r@;
            match &self.steps[i] {
                Step::Load { path, .. } => {
                    r.push(path.clone());
                    assert(r@.map_values(|s: String| s@) =~= before.map_values(|s: String| s@).push(path@));
                },
                Step::Keep { .. } => {},
            }
            i = i + 1;
        }
        assert(steps.take(steps.len() as int) =~= steps);
        r
    }
}

impl RawImport {
    /// Plans the rewrite of a module's top-level items: items are taken in
    /// order, and each binding of a `?raw` import is resolved as it comes.
    pub fn plan(&self, items: &Vec<ModuleItem>) -> (r: Plan)
        ensures
            r@ == plan_items(self@, items@, items@.len() as int),
    {
        let mut steps: Vec<Step> = Vec::new();
        let mut i: usize = 0;
        while i < items.len()
            invariant
                i <= items@.len(),
                plan_items(self@, items@, i as int).stop is None,
                steps@.map_values(|s: Step| s@) == plan_items(self@, items@, i as int).steps,
            decreases items@.len() - i,
        {
            let ghost before = steps@.map_values(|s: Step| s@);
            match &items[i] {
                ModuleItem::Import { source, specifiers } => {
                    let src = crate::text::chars_of(source.as_str());
                    match find_marker(&src) {
                        Some(k) => {
                            let mut raw: Vec<char> = Vec::new();
                            let mut j: usize = 0;
                            while j < k
                                invariant
                                    j <= k,
                                    k <= src@.len(),
                                    raw@ == src@.take(j as int),
                                decreases k - j,
                            {
                                raw.push(src[j]);
                                j = j + 1;
                                assert(raw@ =~= src@.take(j as int));
                            }
                            let raw_path = string_of(&raw);
                            let mut m: usize = 0;
                            assert(plan_items(self@, items@, i + 1) == plan_specifiers(self@, i as int, source@, raw_path@, specifiers@, specifiers@.len() as int, before));
                            while m < specifiers.len()
                                invariant
                                    i < items@.len(),
                                    plan_items(self@, items@, i + 1) == plan_specifiers(self@, i as int, source@, raw_path@, specifiers@, specifiers@.len() as int, before),
                                    m <= specifiers@.len(),
                                    src@ == source@,
                                    raw_path@ == source@.take(k as int),
                                    plan_specifiers(self@, i as int, source@, raw_path@, specifiers@, m as int, before).stop is None,
                                    steps@.map_values(|s: Step| s@) == plan_specifiers(self@, i as int, source@, raw_path@, specifiers@, m as int, before).steps,
                                decreases specifiers@.len() - m,
                            {
                                match &specifiers[m] {
                                    Specifier::Default { local } => {
                                        match self.resolve_path(&raw_path) {
                                            Ok(path) => {
                                                let ghost st = steps@;
                                                steps.push(Step::Load { index: i, local: local.clone(), path });
                                                assert(steps@.map_values(|s: Step| s@) =~= st.map_values(|s: Step| s@).push(steps@.last()@));
                                            },
                                            Err(e) => {
                                                proof {
                                                    lemma_plan_specifiers_stop(self@, i as int, source@, raw_path@, specifiers@, m + 1, specifiers@.len() as int, before);
                                                    lemma_plan_items_stop(self@, items@, i + 1, items@.len() as int);
                                                }
                                                return Plan { steps, stop: Some(e) };
                                            },
                                        }
                                    },
                                    _ => {
                                        proof {
                                            lemma_plan_specifiers_stop(self@, i as int, source@, raw_path@, specifiers@, m + 1, specifiers@.len() as int, before);
                                            lemma_plan_items_stop(self@, items@, i + 1, items@.len() as int);
                                        }
                                        return Plan {
                                            steps,
                                            stop: Some(RawImportError::UnsupportedSpecifier { source: source.clone() }),
                                        };
                                    },
                                }
                                m = m + 1;
                            }
                        },
                        None => {
                            steps.push(Step::Keep { index: i });
                            assert(steps@.map_values(|s: Step| s@) =~= before.push(StepModel::Keep(i as int)));
                        },
                    }
                },
                ModuleItem::Other => {
                    steps.push(Step::Keep { index: i });
                    assert(steps@.map_values(|s: Step| s@) =~= before.push(StepModel::Keep(i as int)));
                },
            }
            i = i + 1;
        }
        Plan { steps, stop: None }
    }
}

/// Builds the rewritten module from a plan and the outcomes of reading its
/// requested files, in order (`Ok` with the text, or `Err` with the cause).
pub fn assemble(plan: &Plan, reads: &Vec<Result<String, String>>) -> (r: Result<Vec<Emit>, RawImportError>)
    ensures
        emits_model(r) == assembled(plan@, reads@.map_values(|o: Result<String, String>| read_model(o))),
{
    let ghost rs = reads@.map_values(|o: Result<String, String>| read_model(o));
    let ghost steps = plan@.steps;
    let mut out: Vec<Emit> = Vec::new();
    let mut k: usize = 0;
    let mut i: usize = 0;
    assert(out@.map_values(|e: Emit| e@) =~= Seq::<EmitModel>::empty());
    while i < plan.steps.len()
        invariant
            i <= plan.steps@.len(),
            steps == plan@.steps,
            steps.len() == plan.steps@.len(),
            rs == reads@.map_values(|o: Result<String, String>| read_model(o)),
            assemble_steps(steps, rs, i as int) == Ok::<(Seq<EmitModel>, int), ErrorModel>((out@.map_values(|e: Emit| e@), k as int)),
            k <= reads@.len(),
        decreases plan.steps@.len() - i,
    {
        assert(steps[i as int] == plan.steps@[i as int]@);
        let ghost before = out@;
        match &plan.steps[i] {
            Step::Keep { index } => {
                out.push(Emit::Keep { index: *index });
            },
            Step::Load { index, local, path } => {
                if k < reads.len() {
                    assert(rs[k as int] == read_model(reads@[k as int]));
                    match &reads[k] {
                        Ok(content) => {
                            out.push(Emit::Const { index: *index, local: local.clone(), content: content.clone() });
                            k = k + 1;
                        },
                        Err(cause) => {
                            proof {
                                lemma_assemble_err(steps, rs, i + 1, steps.len() as int);
                            }
                            return Err(RawImportError::FileReadError { path: path.clone(), cause: cause.clone() });
                        },
                    }
                } else {
                    proof {
                        lemma_assemble_err(steps, rs, i + 1, steps.len() as int);
                    }
                    return Err(RawImportError::FileReadError { path: path.clone(), cause: String::new() });
                }
            },
        }
        assert(out@.map_values(|e: Emit| e@) =~= before.map_values(|e: Emit| e@).push(out@.last()@));
        i = i + 1;
    }
    match &plan.stop {
        Some(e) => Err(clone_error(e)),
        None => Ok(out),
    }
}

/// `item` is an import whose specifier text holds `?raw`.
pub open spec fn is_raw_import(item: ModuleItem) -> bool {
    item matches ModuleItem::Import { source, .. } && marker_from(source@, 0) is Some
}

proof fn lemma_plan_passthrough(r: ResolverModel, items: Seq<ModuleItem>, n: int)
    requires
        0 <= n <= items.len(),
        forall|i: int| 0 <= i < items.len() ==> !is_raw_import(#[trigger] items[i]),
    ensures
        plan_items(r, items, n).stop is None,
        plan_items(r, items, n).steps == Seq::new(n as nat, |i: int| StepModel::Keep(i)),
    decreases n,
{
    if n > 0 {
        lemma_plan_passthrough(r, items, n - 1);
        assert(!is_raw_import(items[n - 1]));
        assert(Seq::new((n - 1) as nat, |i: int| StepModel::Keep(i)).push(StepModel::Keep(n - 1))
            =~= Seq::new(n as nat, |i: int| StepModel::Keep(i)));
    } else {
        assert(Seq::<StepModel>::empty() =~= Seq::new(0, |i: int| StepModel::Keep(i)));
    }
}

proof fn lemma_assemble_keeps(n: int, m: int, reads: Seq<Result<Seq<char>, Seq<char>>>)
    requires
        0 <= m <= n,
    ensures
        assemble_steps(Seq::new(n as nat, |i: int| StepModel::Keep(i)), reads, m) == Ok::<
            (Seq<EmitModel>, int),
            ErrorModel,
        >((Seq::new(m as nat, |i: int| EmitModel::Keep(i)), 0)),
    decreases m,
{
    if m > 0 {
        lemma_assemble_keeps(n, m - 1, reads);
        assert(Seq::new((m - 1) as nat, |i: int| EmitModel::Keep(i)).push(EmitModel::Keep(m - 1))
            =~= Seq::new(m as nat, |i: int| EmitModel::Keep(i)));
    } else {
        assert(Seq::<EmitModel>::empty() =~= Seq::new(0, |i: int| EmitModel::Keep(i)));
    }
}

/// A module with no `?raw` import comes out as it went in: every item is
/// kept, in order, and no file is read.
pub proof fn law_passthrough(
    r: ResolverModel,
    items: Seq<ModuleItem>,
    reads: Seq<Result<Seq<char>, Seq<char>>>,
)
    requires
        forall|i: int| 0 <= i < items.len() ==> !is_raw_import(#[trigger] items[i]),
    ensures
        load_paths(plan_items(r, items, items.len() as int).steps) == Seq::<Seq<char>>::empty(),
        assembled(plan_items(r, items, items.len() as int), reads) == Ok::<
            Seq<EmitModel>,
            ErrorModel,
        >(Seq::new(items.len(), |i: int| EmitModel::Keep(i))),
{
    let n = items.len() as int;
    lemma_plan_passthrough(r, items, n);
    lemma_assemble_keeps(n, n, reads);
    lemma_no_loads(n);
}

proof fn lemma_no_loads(m: int)
    requires
        0 <= m,
    ensures
        load_paths(Seq::new(m as nat, |i: int| StepModel::Keep(i))) == Seq::<Seq<char>>::empty(),
    decreases m,
{
    if m > 0 {
        lemma_no_loads(m - 1);
        assert(Seq::new(m as nat, |i: int| StepModel::Keep(i)).drop_last() =~= Seq::new(
            (m - 1) as nat,
            |i: int| StepModel::Keep(i),
        ));
    }
}

proof fn lemma_load_paths_prefix(steps: Seq<StepModel>, n: int, m: int)
    requires
        0 <= n <= m <= steps.len(),
    ensures
        load_paths(steps.take(n)).len() <= load_paths(steps.take(m)).len(),
        forall|i: int|
            0 <= i < load_paths(steps.take(n)).len() ==> load_paths(steps.take(n))[i]
                == load_paths(steps.take(m))[i],
    decreases m - n,
{
    if n < m {
        lemma_load_paths_prefix(steps, n, m - 1);
        assert(steps.take(m).drop_last() =~= steps.take(m - 1));
    }
}

proof fn lemma_assemble_until_failure(
    steps: Seq<StepModel>,
    reads: Seq<Result<Seq<char>, Seq<char>>>,
    j: int,
    n: int,
)
    requires
        0 <= j < reads.len(),
        reads[j] is Err,
        forall|i: int| 0 <= i < j ==> reads[i] is Ok,
        0 <= n <= steps.len(),
    ensures
        load_paths(steps.take(n)).len() <= j ==> assemble_steps(steps, reads, n) is Ok
            && assemble_steps(steps, reads, n)->Ok_0.1 == load_paths(steps.take(n)).len(),
        load_paths(steps.take(n)).len() > j ==> assemble_steps(steps, reads, n) == Err::<
            (Seq<EmitModel>, int),
            ErrorModel,
        >(ErrorModel::FileReadError(load_paths(steps.take(n))[j], reads[j]->Err_0)),
    decreases n,
{
    if n > 0 {
        lemma_assemble_until_failure(steps, reads, j, n - 1);
        assert(steps.take(n).drop_last() =~= steps.take(n - 1));
        assert(steps.take(n).last() == steps[n - 1]);
    } else {
        assert(steps.take(0) =~= Seq::<StepModel>::empty());
    }
}

/// A failed read is fatal: when the `j`-th file that the plan requests cannot
/// be read and every earlier one was read, the rewrite gives that read's
/// error, with the requested path and its cause, and no statements.
pub proof fn law_failed_read_is_fatal(
    plan: PlanModel,
    reads: Seq<Result<Seq<char>, Seq<char>>>,
    j: int,
)
    requires
        0 <= j < load_paths(plan.steps).len(),
        j < reads.len(),
        reads[j] is Err,
        forall|i: int| 0 <= i < j ==> reads[i] is Ok,
    ensures
        assembled(plan, reads) == Err::<Seq<EmitModel>, ErrorModel>(
            ErrorModel::FileReadError(load_paths(plan.steps)[j], reads[j]->Err_0),
        ),
{
    let steps = plan.steps;
    lemma_assemble_until_failure(steps, reads, j, steps.len() as int);
    assert(steps.take(steps.len() as int) =~= steps);
}

/// The statement that step `step` becomes, given the text read for it.
pub open spec fn emit_for(step: StepModel, content: Seq<char>) -> EmitModel {
    match step {
        StepModel::Keep(i) => EmitModel::Keep(i),
        StepModel::Load(i, local, _) => EmitModel::Const(i, local, content),
    }
}

/// The output when every read succeeds: one statement per step, in order,
/// each load taking the text of its own read.
pub open spec fn emits_when_read(steps: Seq<StepModel>, reads: Seq<Result<Seq<char>, Seq<char>>>) -> Seq<EmitModel> {
    Seq::new(
        steps.len(),
        |i: int| emit_for(steps[i], reads[load_paths(steps.take(i)).len() as int]->Ok_0),
    )
}

proof fn lemma_assemble_all_read(
    steps: Seq<StepModel>,
    reads: Seq<Result<Seq<char>, Seq<char>>>,
    n: int,
)
    requires
        0 <= n <= steps.len(),
        load_paths(steps).len() <= reads.len(),
        forall|i: int| 0 <= i < reads.len() ==> reads[i] is Ok,
    ensures
        assemble_steps(steps, reads, n) == Ok::<(Seq<EmitModel>, int), ErrorModel>(
            (emits_when_read(steps, reads).take(n), load_paths(steps.take(n)).len() as int),
        ),
    decreases n,
{
    let full = emits_when_read(steps, reads);
    if n > 0 {
        lemma_assemble_all_read(steps, reads, n - 1);
        assert(steps.take(n).drop_last() =~= steps.take(n - 1));
        assert(steps.take(n).last() == steps[n - 1]);
        lemma_load_paths_prefix(steps, n, steps.len() as int);
        assert(steps.take(steps.len() as int) =~= steps);
        assert(full.take(n - 1).push(full[n - 1]) =~= full.take(n));
    } else {
        assert(full.take(0) =~= Seq::<EmitModel>::empty());
        assert(steps.take(0) =~= Seq::<StepModel>::empty());
    }
}

/// A module whose plan meets no error, and whose requested files all read,
/// is rewritten in full: every kept item stays in its place and each `?raw`
/// default binding becomes a constant holding the text of its own read.
pub proof fn law_rewrite_when_all_read(
    r: ResolverModel,
    items: Seq<ModuleItem>,
    reads: Seq<Result<Seq<char>, Seq<char>>>,
)
    requires
        plan_items(r, items, items.len() as int).stop is None,
        reads.len() == load_paths(plan_items(r, items, items.len() as int).steps).len(),
        forall|i: int| 0 <= i < reads.len() ==> reads[i] is Ok,
    ensures
        assembled(plan_items(r, items, items.len() as int), reads) == Ok::<
            Seq<EmitModel>,
            ErrorModel,
        >(emits_when_read(plan_items(r, items, items.len() as int).steps, reads)),
{
    let steps = plan_items(r, items, items.len() as int).steps;
    lemma_assemble_all_read(steps, reads, steps.len() as int);
    assert(emits_when_read(steps, reads).take(steps.len() as int) =~= emits_when_read(steps, reads));
}

} // verus!
