//! What holds of every plan: which nodes it has, which contributions stand
//! at each, that it is in order, and what each strategy tells of the node that
//! has it.

use vstd::prelude::*;
use crate::config::ConfigView;
use crate::inventory::{ModuleView, MountMode};
use crate::lists::holds_name;
use crate::planner::{
    all_directories, can_overlay, contribution, gathered, has_active_child, ingested, inserted,
    is_fixed, is_partition_name, kept, lies_in_partition, planned, resolved, sources_of, targeted,
    SourceEntryView,
};
use crate::text::{components_of, joined_path};
use crate::tree::{
    child_position, children_with, leaf, lemma_child_position, lemma_child_position_by_names,
    lemma_found_child, lemma_position_after_with_child, lemma_route_lookup,
    lemma_with_child_keeps_well_formed, lookup, mutations_at, names_along, node_at, reaches,
    well_formed, with_child, FileType, MutationView, NodeView, StrategyView,
};

verus! {

/// Putting a contribution into a tree keeps the tree in order, where the
/// walk starts at the path of the node that it starts from.
pub proof fn lemma_inserted_keeps_well_formed(
    node: NodeView,
    components: Seq<Seq<char>>,
    at: Seq<char>,
    m: MutationView,
)
    requires
        well_formed(node),
        at == node.path,
    ensures
        well_formed(inserted(node, components, at, m)),
        inserted(node, components, at, m).name == node.name,
        inserted(node, components, at, m).path == node.path,
    decreases components.len(),
{
    if components.len() > 0 {
        let name = components[0];
        let path = joined_path(at, name);
        let found = children_with(node.children, node.path, name)[child_position(
            node.children,
            name,
        )];
        lemma_found_child(node, name);
        let placed = NodeView { path, ..found };
        assert(placed == found);
        let child = if components.len() == 1 {
            NodeView { mutations: placed.mutations.push(m), ..placed }
        } else {
            inserted(placed, components.skip(1), path, m)
        };
        if components.len() == 1 {
            assert(child.children == placed.children);
            assert(well_formed(child));
        } else {
            lemma_inserted_keeps_well_formed(placed, components.skip(1), path, m);
        }
        lemma_with_child_keeps_well_formed(node, name, child);
    }
}

/// Putting a contribution into a tree leaves the name of the root alone.
pub proof fn lemma_inserted_keeps_name(
    node: NodeView,
    components: Seq<Seq<char>>,
    at: Seq<char>,
    m: MutationView,
)
    ensures
        inserted(node, components, at, m).name == node.name,
{
}

/// Putting a contribution into a tree adds it at the node that its path
/// leads to, behind what is there, and changes the contributions nowhere
/// else.
pub proof fn lemma_inserted_adds_one(
    node: NodeView,
    components: Seq<Seq<char>>,
    at: Seq<char>,
    m: MutationView,
    path: Seq<Seq<char>>,
)
    ensures
        mutations_at(inserted(node, components, at, m), path) == (if components.len() > 0 && path
            == components {
            mutations_at(node, path).push(m)
        } else {
            mutations_at(node, path)
        }),
    decreases components.len(),
{
    if components.len() > 0 {
        let name = components[0];
        let here = joined_path(at, name);
        let k = child_position(node.children, name);
        lemma_child_position(node.children, name);
        let found = children_with(node.children, node.path, name)[k];
        let placed = NodeView { path: here, ..found };
        let child = if components.len() == 1 {
            NodeView { mutations: placed.mutations.push(m), ..placed }
        } else {
            inserted(placed, components.skip(1), here, m)
        };
        if components.len() > 1 {
            lemma_inserted_keeps_name(placed, components.skip(1), here, m);
        }
        assert(child.name == name);
        let after = inserted(node, components, at, m);
        assert(after == with_child(node, name, child));
        if path.len() > 0 {
            let q = path[0];
            let rest = path.skip(1);
            lemma_position_after_with_child(node, name, child, q);
            let kq = child_position(node.children, q);
            lemma_child_position(node.children, q);
            if q == name {
                assert(after.children[k] == child);
                assert(lookup(after, path) == lookup(child, rest));
                // What stood at the place before, as far as the rest of the
                // path can see it.
                assert(lookup(placed, rest) == (if rest.len() == 0 {
                    Some(placed)
                } else {
                    lookup(found, rest)
                }));
                assert(mutations_at(placed, rest) == mutations_at(found, rest));
                if k < node.children.len() {
                    assert(found == node.children[k]);
                    assert(lookup(node, path) == lookup(found, rest));
                } else {
                    assert(found == leaf(name, joined_path(node.path, name)));
                    assert(lookup(node, path) is None);
                    assert(mutations_at(found, rest) =~= Seq::<MutationView>::empty());
                }
                assert(mutations_at(node, path) == mutations_at(found, rest));
                if components.len() == 1 {
                    if rest.len() == 0 {
                        assert(path.len() == 1);
                        assert(path[0] == components[0]);
                        assert(path =~= components);
                    } else {
                        assert(lookup(child, rest) == lookup(found, rest));
                    }
                } else {
                    lemma_inserted_adds_one(placed, components.skip(1), here, m, rest);
                    if rest == components.skip(1) {
                        assert(path.len() == components.len());
                        assert forall|i: int| 0 <= i < path.len() implies path[i]
                            == components[i] by {
                            if i > 0 {
                                assert(path[i] == rest[i - 1]);
                                assert(components[i] == components.skip(1)[i - 1]);
                            }
                        }
                        assert(path =~= components);
                    }
                }
            } else if kq < node.children.len() {
                assert(after.children[kq] == node.children[kq]);
            }
        }
    }
}

/// `path` is the beginning of `components`, or all of it.
pub open spec fn leads_to(path: Seq<Seq<char>>, components: Seq<Seq<char>>) -> bool {
    path.len() <= components.len() && components.take(path.len() as int) == path
}

/// Putting a contribution into a tree makes the nodes on the way to it and
/// no others: afterwards a path leads to a node where it did before, or where
/// it is the beginning of the path of the contribution.
pub proof fn lemma_inserted_nodes(
    node: NodeView,
    components: Seq<Seq<char>>,
    at: Seq<char>,
    m: MutationView,
    path: Seq<Seq<char>>,
)
    ensures
        lookup(inserted(node, components, at, m), path) is Some <==> lookup(node, path) is Some
            || (components.len() > 0 && leads_to(path, components)),
    decreases components.len(),
{
    if components.len() == 0 {
    } else if path.len() == 0 {
    } else {
        let name = components[0];
        let here = joined_path(at, name);
        let k = child_position(node.children, name);
        lemma_child_position(node.children, name);
        let found = children_with(node.children, node.path, name)[k];
        let placed = NodeView { path: here, ..found };
        let child = if components.len() == 1 {
            NodeView { mutations: placed.mutations.push(m), ..placed }
        } else {
            inserted(placed, components.skip(1), here, m)
        };
        if components.len() > 1 {
            lemma_inserted_keeps_name(placed, components.skip(1), here, m);
        }
        let after = inserted(node, components, at, m);
        assert(after == with_child(node, name, child));
        let q = path[0];
        let rest = path.skip(1);
        let tail = components.skip(1);
        lemma_position_after_with_child(node, name, child, q);
        let kq = child_position(node.children, q);
        lemma_child_position(node.children, q);
        assert(components.take(path.len() as int)[0] == name || path.len() > components.len());
        if q == name {
            assert(after.children[k] == child);
            assert(lookup(after, path) == lookup(child, rest));
            assert(leads_to(path, components) <==> leads_to(rest, tail)) by {
                if path.len() <= components.len() {
                    assert(components.take(path.len() as int).skip(1) =~= tail.take(
                        rest.len() as int,
                    ));
                    if leads_to(rest, tail) {
                        let head = components.take(path.len() as int);
                        assert(head.len() == path.len());
                        assert forall|i: int| 0 <= i < path.len() implies head[i] == path[i] by {
                            if i > 0 {
                                assert(head[i] == tail.take(rest.len() as int)[i - 1]);
                                assert(path[i] == rest[i - 1]);
                            }
                        }
                        assert(head =~= path);
                    }
                }
            }
            assert(lookup(placed, rest) is Some <==> rest.len() == 0 || lookup(found, rest)
                is Some);
            if k < node.children.len() {
                assert(found == node.children[k]);
                assert(lookup(node, path) == lookup(found, rest));
            } else {
                assert(found == leaf(name, joined_path(node.path, name)));
                assert(lookup(node, path) is None);
                if rest.len() > 0 {
                    assert(lookup(found, rest) is None);
                }
            }
            if components.len() == 1 {
                assert(tail.len() == 0);
                assert(leads_to(rest, tail) <==> rest.len() == 0) by {
                    if rest.len() == 0 {
                        assert(tail.take(0) =~= rest);
                    }
                }
                assert(lookup(child, rest) is Some <==> rest.len() == 0 || lookup(found, rest)
                    is Some);
            } else {
                lemma_inserted_nodes(placed, tail, here, m, rest);
                if rest.len() == 0 {
                    assert(tail.take(0) =~= rest);
                }
            }
        } else {
            assert(!leads_to(path, components)) by {
                if path.len() <= components.len() {
                    assert(components.take(path.len() as int)[0] == name);
                }
            }
            if kq < node.children.len() {
                assert(after.children[kq] == node.children[kq]);
            }
        }
    }
}

/// Resolving a tree resolves each of its subtrees: what stands at the end of
/// a route afterwards is what stood there before, resolved.
pub proof fn lemma_resolved_at(
    n: NodeView,
    cfg: ConfigView,
    system_dirs: Seq<Seq<char>>,
    route: Seq<int>,
)
    requires
        reaches(n, route),
    ensures
        reaches(resolved(n, cfg, system_dirs), route),
        node_at(resolved(n, cfg, system_dirs), route) == resolved(
            node_at(n, route),
            cfg,
            system_dirs,
        ),
    decreases route.len(),
{
    if route.len() > 0 {
        lemma_resolved_at(n.children[route[0]], cfg, system_dirs, route.skip(1));
    }
}

/// The routes through a tree are the same before and after resolution.
pub proof fn lemma_resolved_reaches(
    n: NodeView,
    cfg: ConfigView,
    system_dirs: Seq<Seq<char>>,
    route: Seq<int>,
)
    ensures
        reaches(resolved(n, cfg, system_dirs), route) == reaches(n, route),
    decreases route.len(),
{
    if route.len() > 0 {
        if 0 <= route[0] < n.children.len() {
            lemma_resolved_reaches(n.children[route[0]], cfg, system_dirs, route.skip(1));
        }
    }
}

/// After resolution no node that can be reached from the root is without a
/// strategy, and the virtual root and the partition roots are passed through.
pub proof fn lemma_every_node_is_decided(
    root: NodeView,
    cfg: ConfigView,
    system_dirs: Seq<Seq<char>>,
    route: Seq<int>,
)
    requires
        reaches(root, route),
    ensures
        node_at(resolved(root, cfg, system_dirs), route).strategy != StrategyView::Unresolved,
        is_fixed(node_at(root, route), cfg) ==> node_at(
            resolved(root, cfg, system_dirs),
            route,
        ).strategy == StrategyView::Passthrough,
        is_fixed(node_at(resolved(root, cfg, system_dirs), route), cfg) == is_fixed(
            node_at(root, route),
            cfg,
        ),
{
    lemma_resolved_at(root, cfg, system_dirs, route);
}

/// A node that becomes a union mount has contributions, all of them
/// directories, and its layers are where they lie, in the order in which the
/// modules were read. Union mounts are not ruled out, and the device has a
/// directory at the node's path.
pub proof fn lemma_overlay_nodes(
    root: NodeView,
    cfg: ConfigView,
    system_dirs: Seq<Seq<char>>,
    route: Seq<int>,
)
    requires
        reaches(root, route),
        node_at(resolved(root, cfg, system_dirs), route).strategy is Overlay,
    ensures
        ({
            let node = node_at(resolved(root, cfg, system_dirs), route);
            &&& node.strategy->lowerdirs.len() > 0
            &&& node.strategy->lowerdirs == sources_of(node.mutations)
            &&& all_directories(node.mutations)
            &&& node.mutations == node_at(root, route).mutations
            &&& !cfg.force_ext4
            &&& holds_name(system_dirs, node.path)
            &&& !is_fixed(node, cfg)
        }),
{
    lemma_resolved_at(root, cfg, system_dirs, route);
}

/// A node that is redirected is no directory: its first contribution asks for
/// redirection, is a file or a link, and is what reads are redirected to.
pub proof fn lemma_redirect_nodes(
    root: NodeView,
    cfg: ConfigView,
    system_dirs: Seq<Seq<char>>,
    route: Seq<int>,
)
    requires
        reaches(root, route),
        node_at(resolved(root, cfg, system_dirs), route).strategy is Hymo,
    ensures
        ({
            let node = node_at(resolved(root, cfg, system_dirs), route);
            &&& node.mutations.len() > 0
            &&& node.mutations[0].file_type != FileType::Directory
            &&& node.mutations[0].mode == MountMode::HymoFs
            &&& node.strategy->Hymo_source == node.mutations[0].source_path
            &&& !is_fixed(node, cfg)
        }),
{
    lemma_resolved_at(root, cfg, system_dirs, route);
}

/// A node that is bind-mounted is no directory: its first contribution asks
/// for a skeleton, is a file or a link, and is what is mounted.
pub proof fn lemma_bind_nodes(
    root: NodeView,
    cfg: ConfigView,
    system_dirs: Seq<Seq<char>>,
    route: Seq<int>,
)
    requires
        reaches(root, route),
        node_at(resolved(root, cfg, system_dirs), route).strategy is Bind,
    ensures
        ({
            let node = node_at(resolved(root, cfg, system_dirs), route);
            &&& node.mutations.len() > 0
            &&& node.mutations[0].file_type != FileType::Directory
            &&& node.mutations[0].mode == MountMode::Magic
            &&& node.strategy->Bind_source == node.mutations[0].source_path
        }),
{
    lemma_resolved_at(root, cfg, system_dirs, route);
}

/// A node becomes a skeleton for one of two reasons: its first contribution
/// is a directory that asks for one, or nothing else applies to it and a child
/// has work to do.
pub proof fn lemma_skeleton_nodes(
    root: NodeView,
    cfg: ConfigView,
    system_dirs: Seq<Seq<char>>,
    route: Seq<int>,
)
    requires
        reaches(root, route),
        node_at(resolved(root, cfg, system_dirs), route).strategy is Magic,
    ensures
        ({
            let node = node_at(resolved(root, cfg, system_dirs), route);
            &&& !is_fixed(node, cfg)
            &&& (node.mutations.len() > 0 && node.mutations[0].mode == MountMode::Magic
                && node.mutations[0].file_type == FileType::Directory) || (!can_overlay(
                node,
                cfg,
                system_dirs,
            ) && has_active_child(node.children))
        }),
{
    lemma_resolved_at(root, cfg, system_dirs, route);
}

/// Resolving a tree keeps it in order.
pub proof fn lemma_resolved_keeps_well_formed(
    node: NodeView,
    cfg: ConfigView,
    system_dirs: Seq<Seq<char>>,
)
    requires
        well_formed(node),
    ensures
        well_formed(resolved(node, cfg, system_dirs)),
    decreases node,
{
    let after = resolved(node, cfg, system_dirs);
    assert forall|i: int| 0 <= i < after.children.len() implies well_formed(
        #[trigger] after.children[i],
    ) by {
        assert(well_formed(node.children[i]));
        lemma_resolved_keeps_well_formed(node.children[i], cfg, system_dirs);
    }
    assert forall|i: int, j: int| 0 <= i < j < after.children.len() implies (
    #[trigger] after.children[i]).name != (#[trigger] after.children[j]).name by {
        lemma_resolved_keeps_the_node(node.children[i], cfg, system_dirs);
        lemma_resolved_keeps_the_node(node.children[j], cfg, system_dirs);
    }
    assert forall|i: int| 0 <= i < after.children.len() implies (
    #[trigger] after.children[i]).path == joined_path(after.path, after.children[i].name) by {
        lemma_resolved_keeps_the_node(node.children[i], cfg, system_dirs);
        assert(node.children[i].path == joined_path(node.path, node.children[i].name));
    }
}

/// Resolving changes strategies only: names, paths, contributions and the
/// number of children stay.
pub proof fn lemma_resolved_keeps_the_node(
    node: NodeView,
    cfg: ConfigView,
    system_dirs: Seq<Seq<char>>,
)
    ensures
        resolved(node, cfg, system_dirs).name == node.name,
        resolved(node, cfg, system_dirs).path == node.path,
        resolved(node, cfg, system_dirs).mutations == node.mutations,
        resolved(node, cfg, system_dirs).children.len() == node.children.len(),
{
}

/// The files of a module go into a tree that is in order, and whose root
/// lies at `/`, without bringing it out of order.
pub proof fn lemma_ingested_keeps_well_formed(
    root: NodeView,
    module: ModuleView,
    entries: Seq<SourceEntryView>,
)
    requires
        well_formed(root),
        root.path == seq!['/'],
    ensures
        well_formed(ingested(root, module, entries)),
        ingested(root, module, entries).path == root.path,
        ingested(root, module, entries).name == root.name,
    decreases entries.len(),
{
    if entries.len() > 0 {
        let e = entries.last();
        lemma_ingested_keeps_well_formed(root, module, entries.drop_last());
        lemma_inserted_keeps_well_formed(
            ingested(root, module, entries.drop_last()),
            components_of(e.relative),
            seq!['/'],
            contribution(module, e.relative, e.source_path, e.file_type),
        );
    }
}

/// The same of the files of all modules.
pub proof fn lemma_gathered_keeps_well_formed(
    root: NodeView,
    modules: Seq<ModuleView>,
    contents: Seq<Seq<SourceEntryView>>,
)
    requires
        well_formed(root),
        root.path == seq!['/'],
    ensures
        well_formed(gathered(root, modules, contents)),
        gathered(root, modules, contents).path == root.path,
        gathered(root, modules, contents).name == root.name,
    decreases modules.len(),
{
    if modules.len() > 0 {
        let k = modules.len() - 1;
        lemma_gathered_keeps_well_formed(root, modules.drop_last(), contents);
        if k < contents.len() {
            lemma_ingested_keeps_well_formed(
                gathered(root, modules.drop_last(), contents),
                modules[k],
                contents[k],
            );
        }
    }
}

/// A plan is in order, and its root is the virtual root.
pub proof fn lemma_planned_well_formed(
    cfg: ConfigView,
    modules: Seq<ModuleView>,
    contents: Seq<Seq<SourceEntryView>>,
    system_dirs: Seq<Seq<char>>,
)
    ensures
        well_formed(planned(cfg, modules, contents, system_dirs)),
        planned(cfg, modules, contents, system_dirs).name == seq!['/'],
        planned(cfg, modules, contents, system_dirs).path == seq!['/'],
{
    let start = leaf(seq!['/'], seq!['/']);
    let files = targeted(cfg, contents);
    lemma_gathered_keeps_well_formed(start, modules, files);
    lemma_resolved_keeps_well_formed(gathered(start, modules, files), cfg, system_dirs);
}

/// The contributions that the files of one module make at `path`, in the
/// order of the files.
pub open spec fn contributions_of(
    module: ModuleView,
    entries: Seq<SourceEntryView>,
    path: Seq<Seq<char>>,
) -> Seq<MutationView>
    decreases entries.len(),
{
    if entries.len() == 0 {
        Seq::empty()
    } else {
        let e = entries.last();
        let before = contributions_of(module, entries.drop_last(), path);
        if path.len() > 0 && components_of(e.relative) == path {
            before.push(contribution(module, e.relative, e.source_path, e.file_type))
        } else {
            before
        }
    }
}

/// The contributions that all modules make at `path`: those of the first
/// module first.
pub open spec fn contributions_at(
    modules: Seq<ModuleView>,
    contents: Seq<Seq<SourceEntryView>>,
    path: Seq<Seq<char>>,
) -> Seq<MutationView>
    decreases modules.len(),
{
    if modules.len() == 0 {
        Seq::empty()
    } else {
        let k = modules.len() - 1;
        let before = contributions_at(modules.drop_last(), contents, path);
        if k < contents.len() {
            before + contributions_of(modules[k], contents[k], path)
        } else {
            before
        }
    }
}

/// The files of a module leave their contributions at the nodes that their
/// paths lead to, behind what is there, in the order of the files.
pub proof fn lemma_ingested_contributions(
    root: NodeView,
    module: ModuleView,
    entries: Seq<SourceEntryView>,
    path: Seq<Seq<char>>,
)
    ensures
        mutations_at(ingested(root, module, entries), path) == mutations_at(root, path)
            + contributions_of(module, entries, path),
    decreases entries.len(),
{
    if entries.len() == 0 {
        assert(mutations_at(root, path) + Seq::<MutationView>::empty() =~= mutations_at(
            root,
            path,
        ));
    } else {
        let e = entries.last();
        let before = ingested(root, module, entries.drop_last());
        let m = contribution(module, e.relative, e.source_path, e.file_type);
        lemma_ingested_contributions(root, module, entries.drop_last(), path);
        lemma_inserted_adds_one(before, components_of(e.relative), seq!['/'], m, path);
        let sofar = contributions_of(module, entries.drop_last(), path);
        if path.len() > 0 && components_of(e.relative) == path {
            assert((mutations_at(root, path) + sofar).push(m) =~= mutations_at(root, path)
                + sofar.push(m));
        }
    }
}

/// The same of the files of all modules.
pub proof fn lemma_gathered_contributions(
    root: NodeView,
    modules: Seq<ModuleView>,
    contents: Seq<Seq<SourceEntryView>>,
    path: Seq<Seq<char>>,
)
    ensures
        mutations_at(gathered(root, modules, contents), path) == mutations_at(root, path)
            + contributions_at(modules, contents, path),
    decreases modules.len(),
{
    if modules.len() == 0 {
        assert(mutations_at(root, path) + Seq::<MutationView>::empty() =~= mutations_at(
            root,
            path,
        ));
    } else {
        let k = modules.len() - 1;
        let before = gathered(root, modules.drop_last(), contents);
        lemma_gathered_contributions(root, modules.drop_last(), contents, path);
        if k < contents.len() {
            lemma_ingested_contributions(before, modules[k], contents[k], path);
            let sofar = contributions_at(modules.drop_last(), contents, path);
            let more = contributions_of(modules[k], contents[k], path);
            assert((mutations_at(root, path) + sofar) + more =~= mutations_at(root, path) + (sofar
                + more));
        }
    }
}

/// Resolving a tree leaves every node where it was and its contributions as
/// they were.
pub proof fn lemma_resolved_lookup(
    node: NodeView,
    cfg: ConfigView,
    system_dirs: Seq<Seq<char>>,
    path: Seq<Seq<char>>,
)
    ensures
        lookup(resolved(node, cfg, system_dirs), path) == (match lookup(node, path) {
            Some(n) => Some(resolved(n, cfg, system_dirs)),
            None => None,
        }),
        mutations_at(resolved(node, cfg, system_dirs), path) == mutations_at(node, path),
    decreases path.len(),
{
    let after = resolved(node, cfg, system_dirs);
    if path.len() > 0 {
        assert forall|i: int| 0 <= i < after.children.len() implies (
        #[trigger] after.children[i]).name == node.children[i].name by {
            lemma_resolved_keeps_the_node(node.children[i], cfg, system_dirs);
        }
        lemma_child_position_by_names(after.children, node.children, path[0]);
        let k = child_position(node.children, path[0]);
        lemma_child_position(node.children, path[0]);
        if k < node.children.len() {
            lemma_resolved_lookup(node.children[k], cfg, system_dirs, path.skip(1));
        }
    }
    match lookup(node, path) {
        Some(n) => {
            lemma_resolved_keeps_the_node(n, cfg, system_dirs);
        },
        None => {},
    }
}

/// In a plan the contributions at a node are those that the modules make at
/// its path with the files that lie below a partition: module by module in
/// the order in which the modules were given, and file by file within a
/// module.
pub proof fn lemma_planned_contributions(
    cfg: ConfigView,
    modules: Seq<ModuleView>,
    contents: Seq<Seq<SourceEntryView>>,
    system_dirs: Seq<Seq<char>>,
    path: Seq<Seq<char>>,
)
    ensures
        mutations_at(planned(cfg, modules, contents, system_dirs), path) == contributions_at(
            modules,
            targeted(cfg, contents),
            path,
        ),
{
    let start = leaf(seq!['/'], seq!['/']);
    let files = targeted(cfg, contents);
    lemma_gathered_contributions(start, modules, files, path);
    lemma_resolved_lookup(gathered(start, modules, files), cfg, system_dirs, path);
    assert(mutations_at(start, path) =~= Seq::<MutationView>::empty()) by {
        if path.len() > 0 {
            assert(lookup(start, path) is None);
        }
    }
    assert(Seq::<MutationView>::empty() + contributions_at(modules, files, path)
        =~= contributions_at(modules, files, path));
}

/// Some file among `entries` lies at `path` or below it.
pub open spec fn reached_by(entries: Seq<SourceEntryView>, path: Seq<Seq<char>>) -> bool {
    exists|j: int|
        0 <= j < entries.len() && components_of(#[trigger] entries[j].relative).len() > 0
            && leads_to(path, components_of(entries[j].relative))
}

/// Some file of some module lies at `path` or below it.
pub open spec fn reached(
    modules: Seq<ModuleView>,
    contents: Seq<Seq<SourceEntryView>>,
    path: Seq<Seq<char>>,
) -> bool {
    exists|k: int|
        0 <= k < modules.len() && k < contents.len() && reached_by(#[trigger] contents[k], path)
}

/// The files of a module make the nodes on the way to them and no others.
pub proof fn lemma_ingested_nodes(
    root: NodeView,
    module: ModuleView,
    entries: Seq<SourceEntryView>,
    path: Seq<Seq<char>>,
)
    ensures
        lookup(ingested(root, module, entries), path) is Some <==> lookup(root, path) is Some
            || reached_by(entries, path),
    decreases entries.len(),
{
    if entries.len() > 0 {
        let e = entries.last();
        let init = entries.drop_last();
        let before = ingested(root, module, init);
        let m = contribution(module, e.relative, e.source_path, e.file_type);
        lemma_ingested_nodes(root, module, init, path);
        lemma_inserted_nodes(before, components_of(e.relative), seq!['/'], m, path);
        let last_reaches = components_of(e.relative).len() > 0 && leads_to(
            path,
            components_of(e.relative),
        );
        assert(reached_by(entries, path) <==> reached_by(init, path) || last_reaches) by {
            if reached_by(init, path) {
                let j = choose|j: int|
                    0 <= j < init.len() && components_of(#[trigger] init[j].relative).len() > 0
                        && leads_to(path, components_of(init[j].relative));
                assert(entries[j] == init[j]);
            }
            if last_reaches {
                assert(entries[entries.len() - 1] == e);
            }
            if reached_by(entries, path) {
                let j = choose|j: int|
                    0 <= j < entries.len() && components_of(
                        #[trigger] entries[j].relative,
                    ).len() > 0 && leads_to(path, components_of(entries[j].relative));
                if j < init.len() {
                    assert(init[j] == entries[j]);
                }
            }
        }
    }
}

/// The same of the files of all modules.
pub proof fn lemma_gathered_nodes(
    root: NodeView,
    modules: Seq<ModuleView>,
    contents: Seq<Seq<SourceEntryView>>,
    path: Seq<Seq<char>>,
)
    ensures
        lookup(gathered(root, modules, contents), path) is Some <==> lookup(root, path) is Some
            || reached(modules, contents, path),
    decreases modules.len(),
{
    if modules.len() > 0 {
        let k = modules.len() - 1;
        let init = modules.drop_last();
        let before = gathered(root, init, contents);
        lemma_gathered_nodes(root, init, contents, path);
        if k < contents.len() {
            lemma_ingested_nodes(before, modules[k], contents[k], path);
        }
        let last_reaches = k < contents.len() && reached_by(contents[k], path);
        assert(reached(modules, contents, path) <==> reached(init, contents, path)
            || last_reaches) by {
            if reached(init, contents, path) {
                let i = choose|i: int|
                    0 <= i < init.len() && i < contents.len() && reached_by(
                        #[trigger] contents[i],
                        path,
                    );
                assert(0 <= i < modules.len());
            }
            if reached(modules, contents, path) {
                let i = choose|i: int|
                    0 <= i < modules.len() && i < contents.len() && reached_by(
                        #[trigger] contents[i],
                        path,
                    );
                if i < init.len() {
                    assert(reached(init, contents, path));
                }
            }
        }
    }
}

/// A plan has a node for the root, a node for every file of every module
/// that lies below a partition, a node for every directory on the way to
/// one, and no other node.
pub proof fn lemma_planned_nodes(
    cfg: ConfigView,
    modules: Seq<ModuleView>,
    contents: Seq<Seq<SourceEntryView>>,
    system_dirs: Seq<Seq<char>>,
    path: Seq<Seq<char>>,
)
    ensures
        lookup(planned(cfg, modules, contents, system_dirs), path) is Some <==> path.len() == 0
            || reached(modules, targeted(cfg, contents), path),
{
    let start = leaf(seq!['/'], seq!['/']);
    let files = targeted(cfg, contents);
    lemma_gathered_nodes(start, modules, files, path);
    lemma_resolved_lookup(gathered(start, modules, files), cfg, system_dirs, path);
    if path.len() > 0 {
        assert(lookup(start, path) is None);
    }
}

/// The layers of every union mount of a plan are the directories that the
/// modules contribute at its path, all of them, in the order in which the
/// modules were given: the first module's on top.
pub proof fn lemma_overlay_layers_in_scan_order(
    cfg: ConfigView,
    modules: Seq<ModuleView>,
    contents: Seq<Seq<SourceEntryView>>,
    system_dirs: Seq<Seq<char>>,
    route: Seq<int>,
)
    requires
        reaches(planned(cfg, modules, contents, system_dirs), route),
        node_at(planned(cfg, modules, contents, system_dirs), route).strategy is Overlay,
    ensures
        ({
            let plan = planned(cfg, modules, contents, system_dirs);
            let node = node_at(plan, route);
            let made = contributions_at(
                modules,
                targeted(cfg, contents),
                names_along(plan, route),
            );
            &&& node.mutations == made
            &&& node.strategy->lowerdirs == sources_of(made)
            &&& made.len() > 0
            &&& all_directories(made)
        }),
{
    let start = gathered(leaf(seq!['/'], seq!['/']), modules, targeted(cfg, contents));
    let plan = planned(cfg, modules, contents, system_dirs);
    lemma_planned_well_formed(cfg, modules, contents, system_dirs);
    lemma_resolved_reaches(start, cfg, system_dirs, route);
    lemma_resolved_at(start, cfg, system_dirs, route);
    lemma_route_lookup(plan, route);
    lemma_planned_contributions(cfg, modules, contents, system_dirs, names_along(plan, route));
}

/// What is kept of the files of a module lies below a partition.
pub proof fn lemma_kept_lies_in_partitions(cfg: ConfigView, entries: Seq<SourceEntryView>, j: int)
    requires
        0 <= j < kept(cfg, entries).len(),
    ensures
        lies_in_partition(cfg, kept(cfg, entries)[j].relative),
    decreases entries.len(),
{
    if entries.len() > 0 {
        let before = kept(cfg, entries.drop_last());
        if j < before.len() {
            lemma_kept_lies_in_partitions(cfg, entries.drop_last(), j);
        }
    }
}

/// Every node of a plan but the root lies in a partition: the first name on
/// the way to it is the name of a partition, built in or configured. Nothing
/// is planned for outside the target partitions.
pub proof fn lemma_plan_lies_in_partitions(
    cfg: ConfigView,
    modules: Seq<ModuleView>,
    contents: Seq<Seq<SourceEntryView>>,
    system_dirs: Seq<Seq<char>>,
    path: Seq<Seq<char>>,
)
    requires
        path.len() > 0,
        lookup(planned(cfg, modules, contents, system_dirs), path) is Some,
    ensures
        is_partition_name(cfg, path[0]),
{
    let files = targeted(cfg, contents);
    lemma_planned_nodes(cfg, modules, contents, system_dirs, path);
    let k = choose|k: int|
        0 <= k < modules.len() && k < files.len() && reached_by(#[trigger] files[k], path);
    let entries = files[k];
    assert(entries == kept(cfg, contents[k]));
    let j = choose|j: int|
        0 <= j < entries.len() && components_of(#[trigger] entries[j].relative).len() > 0
            && leads_to(path, components_of(entries[j].relative));
    lemma_kept_lies_in_partitions(cfg, contents[k], j);
    let components = components_of(entries[j].relative);
    assert(components.take(path.len() as int)[0] == components[0]);
}

} // verus!
