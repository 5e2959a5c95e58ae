//! The scene compiler: it keeps the compiled picture graph of the last
//! successful compile, with its source index, and brings it up to date with
//! the render scene. A compile first decides what the scene's changes need
//! (`plan_compile`); a structural change rebuilds the graph, and a failed
//! rebuild drops it, so the next compile starts again from a full rebuild;
//! other changes update the graph in place, which a failed update leaves
//! partly updated at its former revision.

use vstd::prelude::*;

use crate::compile::{
    antichain, branch_of, compile_changes, covered, compile_is_current, compile_is_structural, compile_passes_keys, compile_validates,
    first_repeat, plan_compile, scene_keys, CompilePlan, CompiledSources, SceneCompileError,
};
use crate::graph::{
    apply_non_structural_updates, initial_graph, law_updates_keep_ids, present, rebuild_structural_branches,
    rebuild_structure, spec_rebuild, spec_rebuild_branches, spec_update_one, spec_updates, CompiledGraph, GraphView,
};
use crate::node_store::RenderNodeId;
use crate::scene::{DirtySnapshot, RenderScene, SceneError};

verus! {

/// `c` lists exactly the sources that graph `g` indexes.
pub open spec fn indexes(c: CompiledSources, g: GraphView) -> bool {
    &&& c.primitives@.to_set() == g.primitive_by_source.dom()
    &&& c.spatials@.to_set() == g.spatial_by_source.dom()
    &&& c.clips@.to_set() == g.clip_by_source.dom()
    &&& c.pictures@.to_set() == g.picture_by_source.dom()
}

/// The graph a structural compile starts from: the current one, or the
/// initial graph of the scene before the first compile.
pub open spec fn rebuild_start(current: Option<GraphView>, source: &RenderScene) -> GraphView {
    match current {
        Some(g) => g,
        None => initial_graph(source.spec_root()),
    }
}

/// What a structural compile leaves, given the result of its rebuild: the
/// rebuilt graph at the source's revision, or no graph after a failure.
pub open spec fn rebuilt_into(
    res: Result<GraphView, SceneCompileError>,
    r: Result<(), SceneCompileError>,
    new: &SceneCompiler,
    source: &RenderScene,
) -> bool {
    match res {
        Ok(g) => r is Ok && new.spec_graph() == Some(g) && (new.spec_index() matches Some(c) && c.scene_revision
            == source.spec_revision()),
        Err(e) => r == Err::<(), SceneCompileError>(e) && new.spec_graph() is None,
    }
}

pub struct SceneCompiler {
    compiled: Option<CompiledGraph>,
    sources: Option<CompiledSources>,
}

impl SceneCompiler {
    /// The compiled graph, if there is one.
    pub closed spec fn spec_graph(&self) -> Option<GraphView> {
        match self.compiled {
            Some(g) => Some(g@),
            None => None,
        }
    }

    /// The source index of the compiled graph, with the scene revision it
    /// was compiled from.
    pub closed spec fn spec_index(&self) -> Option<&CompiledSources> {
        match &self.sources {
            Some(c) => Some(c),
            None => None,
        }
    }

    /// A compiled graph is well formed with its roots there, and comes with
    /// the index of its sources; or there is neither.
    pub closed spec fn wf(&self) -> bool {
        match (&self.compiled, &self.sources) {
            (Some(g), Some(c)) => g.wf() && present(g@.pictures, g@.root_picture) && g@.root_spatial
                < g@.spatials.len() && indexes(*c, g@),
            (None, None) => true,
            _ => false,
        }
    }

    /// A compiler that has compiled nothing yet.
    pub fn new() -> (r: SceneCompiler)
        ensures
            r.wf(),
            r.spec_graph() is None,
            r.spec_index() is None,
    {
        SceneCompiler { compiled: None, sources: None }
    }

    /// The compiled graph, if there is one.
    pub fn compiled_scene(&self) -> (r: Option<&CompiledGraph>)
        ensures
            r is None <==> self.spec_graph() is None,
            r matches Some(g) ==> self.spec_graph() == Some(g@),
    {
        match &self.compiled {
            Some(g) => Some(g),
            None => None,
        }
    }

    /// The source index of the compiled graph, if there is one.
    pub fn compiled_sources(&self) -> (r: Option<&CompiledSources>)
        ensures
            r == self.spec_index(),
    {
        match &self.sources {
            Some(c) => Some(c),
            None => None,
        }
    }

    /// Brings the compiled graph up to date with `source` at `snapshot`.
    /// - A graph already at the source's revision stays.
    /// - A failed cache-key check (a missing root, a repeated explicit key)
    ///   is returned and the graph stays.
    /// - A structural change rebuilds the graph from the current one (or
    ///   from the initial graph): it becomes the rebuilt graph at the
    ///   source's revision, or, when the rebuild fails, the graph is dropped.
    /// - Other changes update the graph in place: it becomes the updated
    ///   graph at the source's revision, or, when an update fails, keeps the
    ///   updates before the failing one at its former revision.
    pub fn compile(&mut self, source: &RenderScene, snapshot: &DirtySnapshot) -> (r: Result<(), SceneCompileError>)
        requires
            old(self).wf(),
            source.wf(),
        ensures
            final(self).wf(),
            ({
                let idx = old(self).spec_index();
                let unchanged = final(self).spec_graph() == old(self).spec_graph() && final(self).spec_index()
                    == old(self).spec_index();
                &&& compile_is_current(source, idx) ==> r is Ok && unchanged
                &&& !compile_is_current(source, idx) && compile_validates(source, idx, snapshot)
                    && !source@.dom().contains(source.spec_root()) ==> r == Err::<(), SceneCompileError>(
                    SceneCompileError::Scene(SceneError::MissingNode(source.spec_root())),
                ) && unchanged
                &&& !compile_is_current(source, idx) && compile_validates(source, idx, snapshot)
                    && source@.dom().contains(source.spec_root()) && !scene_keys(source).no_duplicates() ==> (r matches Err(
                    SceneCompileError::DuplicateLayerCacheKey(k),
                ) && first_repeat(scene_keys(source), k)) && unchanged
                &&& !compile_is_current(source, idx) && compile_passes_keys(source, idx, snapshot)
                    && compile_is_structural(source, idx, snapshot) && old(self).spec_graph() is None ==> rebuilt_into(
                    spec_rebuild(initial_graph(source.spec_root()), source),
                    r,
                    final(self),
                    source,
                )
                &&& !compile_is_current(source, idx) && compile_passes_keys(source, idx, snapshot)
                    && compile_is_structural(source, idx, snapshot) && old(self).spec_graph() is Some ==> {
                    let g = old(self).spec_graph()->0;
                    let ch = compile_changes(source, idx, snapshot);
                    ||| (exists|i: int|
                        0 <= i < ch.len() && branch_of(
                            idx->0.pictures@,
                            source@,
                            source.spec_root(),
                            #[trigger] ch[i].0,
                            ch[i].1,
                            None,
                        )) && rebuilt_into(spec_rebuild(g, source), r, final(self), source)
                    ||| exists|v: Seq<RenderNodeId>|
                        antichain(source@, v) && (forall|i: int| 0 <= i < ch.len() ==> #[trigger] covered(source@, v, ch[i].0))
                            && #[trigger] rebuilt_into(spec_rebuild_branches(g, source, v), r, final(self), source)
                }
                &&& !compile_is_current(source, idx) && compile_passes_keys(source, idx, snapshot)
                    && !compile_is_structural(source, idx, snapshot) ==> old(self).spec_graph() is Some && match spec_updates(
                    old(self).spec_graph()->0,
                    source@,
                    compile_changes(source, idx, snapshot),
                ) {
                    Ok(g) => r is Ok && final(self).spec_graph() == Some(g) && (final(self).spec_index() matches Some(c)
                        && c.scene_revision == source.spec_revision()),
                    Err(e) => r == Err::<(), SceneCompileError>(e) && final(self).spec_index() == old(self).spec_index()
                        && final(self).spec_graph() is Some && exists|j: int|
                        0 <= j < compile_changes(source, idx, snapshot).len() && #[trigger] spec_updates(
                            old(self).spec_graph()->0,
                            source@,
                            compile_changes(source, idx, snapshot).take(j),
                        ) == Ok::<GraphView, SceneCompileError>(final(self).spec_graph()->0) && spec_update_one(
                            final(self).spec_graph()->0,
                            source@,
                            compile_changes(source, idx, snapshot)[j].0,
                            compile_changes(source, idx, snapshot)[j].1,
                        ) == Err::<GraphView, SceneCompileError>(e),
                }
            }),
    {
        let idx = match &self.sources {
            Some(c) => Some(c),
            None => None,
        };
        let plan = match plan_compile(source, idx, snapshot) {
            Ok(p) => p,
            Err(e) => {
                return Err(e);
            },
        };
        match plan {
            CompilePlan::UpToDate => Ok(()),
            CompilePlan::InPlace(changed) => {
                let mut slot: Option<CompiledGraph> = None;
                std::mem::swap(&mut slot, &mut self.compiled);
                let mut g = match slot {
                    Some(g) => g,
                    None => {
                        return Ok(());
                    },
                };
                let ghost g0 = g@;
                let res = apply_non_structural_updates(&mut g, source, &changed);
                match res {
                    Err(e) => {
                        proof {
                            let j = choose|j: int|
                                0 <= j < changed@.len() && #[trigger] spec_updates(g0, source@, changed@.take(j))
                                    == Ok::<GraphView, SceneCompileError>(g@) && spec_update_one(
                                    g@,
                                    source@,
                                    changed@[j].0,
                                    changed@[j].1,
                                ) == Err::<GraphView, SceneCompileError>(e);
                            law_updates_keep_ids(g0, source@, changed@.take(j));
                        }
                        self.compiled = Some(g);
                        Err(e)
                    },
                    Ok(()) => {
                        proof {
                            law_updates_keep_ids(g0, source@, changed@);
                        }
                        let c = g.sources(source.revision());
                        self.compiled = Some(g);
                        self.sources = Some(c);
                        Ok(())
                    },
                }
            },
            CompilePlan::Full => {
                let mut slot: Option<CompiledGraph> = None;
                std::mem::swap(&mut slot, &mut self.compiled);
                self.sources = None;
                let mut next = match slot {
                    Some(g) => g,
                    None => CompiledGraph::new(source),
                };
                match rebuild_structure(&mut next, source) {
                    Err(e) => {
                        return Err(e);
                    },
                    Ok(()) => {},
                }
                let c = next.sources(source.revision());
                self.compiled = Some(next);
                self.sources = Some(c);
                Ok(())
            },
            CompilePlan::Branches(branches) => {
                let mut slot: Option<CompiledGraph> = None;
                std::mem::swap(&mut slot, &mut self.compiled);
                self.sources = None;
                let mut next = match slot {
                    Some(g) => g,
                    None => {
                        return Ok(());
                    },
                };
                let ghost g0 = next@;
                match rebuild_structural_branches(&mut next, source, &branches) {
                    Err(e) => {
                        proof {
                            assert(rebuilt_into(spec_rebuild_branches(g0, source, branches@), Err(e), self, source));
                        }
                        return Err(e);
                    },
                    Ok(()) => {},
                }
                let c = next.sources(source.revision());
                self.compiled = Some(next);
                self.sources = Some(c);
                proof {
                    assert(rebuilt_into(spec_rebuild_branches(g0, source, branches@), Ok(()), self, source));
                }
                Ok(())
            },
        }
    }
}

} // verus!
