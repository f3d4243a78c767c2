//! Files that are linked to one another, directly or by way of others.

use vstd::prelude::*;

verus! {

/// Whether one of `links` joins `a` and `b`, in either direction.
pub open spec fn linked(links: Seq<(Seq<char>, Seq<char>)>, a: Seq<char>, b: Seq<char>) -> bool {
    links.contains((a, b)) || links.contains((b, a))
}

/// Whether each file of `path` is linked to the next one.
pub open spec fn is_path(links: Seq<(Seq<char>, Seq<char>)>, path: Seq<Seq<char>>) -> bool {
    &&& path.len() > 0
    &&& forall|i: int| 0 <= i < path.len() - 1 ==> linked(links, #[trigger] path[i], path[i + 1])
}

/// Whether some path of links leads from `a` to `b`.
pub open spec fn connected(links: Seq<(Seq<char>, Seq<char>)>, a: Seq<char>, b: Seq<char>) -> bool {
    exists|path: Seq<Seq<char>>| #[trigger]
        is_path(links, path) && path.first() == a && path.last() == b
}

/// Every file is connected with itself.
pub proof fn lemma_connected_reflexive(links: Seq<(Seq<char>, Seq<char>)>, a: Seq<char>)
    ensures
        connected(links, a, a),
{
    assert(is_path(links, seq![a]));
}

/// A path of links can be walked backwards.
pub proof fn lemma_connected_symmetric(
    links: Seq<(Seq<char>, Seq<char>)>,
    a: Seq<char>,
    b: Seq<char>,
)
    requires
        connected(links, a, b),
    ensures
        connected(links, b, a),
{
    let path = choose|path: Seq<Seq<char>>| #[trigger]
        is_path(links, path) && path.first() == a && path.last() == b;
    let back = path.reverse();
    assert forall|i: int| 0 <= i < back.len() - 1 implies linked(
        links,
        #[trigger] back[i],
        back[i + 1],
    ) by {
        let j = path.len() - 2 - i;
        assert(linked(links, path[j], path[j + 1]));
    }
    assert(is_path(links, back));
}

/// Two paths of links, one after the other, are a path of links.
pub proof fn lemma_connected_transitive(
    links: Seq<(Seq<char>, Seq<char>)>,
    a: Seq<char>,
    b: Seq<char>,
    c: Seq<char>,
)
    requires
        connected(links, a, b),
        connected(links, b, c),
    ensures
        connected(links, a, c),
{
    let p = choose|path: Seq<Seq<char>>| #[trigger]
        is_path(links, path) && path.first() == a && path.last() == b;
    let q = choose|path: Seq<Seq<char>>| #[trigger]
        is_path(links, path) && path.first() == b && path.last() == c;
    let both = p + q.drop_first();
    assert forall|i: int| 0 <= i < both.len() - 1 implies linked(
        links,
        #[trigger] both[i],
        both[i + 1],
    ) by {
        if i < p.len() - 1 {
            assert(linked(links, p[i], p[i + 1]));
        } else {
            let j = i - (p.len() - 1);
            assert(linked(links, q[j], q[j + 1]));
            assert(both[i] == q[j]);
        }
    }
    assert(both.last() == c) by {
        if q.len() == 1 {
            assert(both =~= p);
        }
    }
    assert(is_path(links, both));
}

/// A further link takes no connection away.
pub proof fn lemma_connected_monotone(
    links: Seq<(Seq<char>, Seq<char>)>,
    link: (Seq<char>, Seq<char>),
    a: Seq<char>,
    b: Seq<char>,
)
    requires
        connected(links, a, b),
    ensures
        connected(links.push(link), a, b),
{
    let path = choose|path: Seq<Seq<char>>| #[trigger]
        is_path(links, path) && path.first() == a && path.last() == b;
    assert forall|i: int| 0 <= i < path.len() - 1 implies linked(
        links.push(link),
        #[trigger] path[i],
        path[i + 1],
    ) by {
        assert(linked(links, path[i], path[i + 1]));
        assert forall|e: (Seq<char>, Seq<char>)| links.contains(e) implies links.push(
            link,
        ).contains(e) by {
            let k = choose|k: int| 0 <= k < links.len() && links[k] == e;
            assert(links.push(link)[k] == e);
        }
    }
    assert(is_path(links.push(link), path));
}

proof fn lemma_step(
    links: Seq<(Seq<char>, Seq<char>)>,
    a: Seq<char>,
    b: Seq<char>,
    c: Seq<char>,
)
    requires
        connected(links, a, b),
        linked(links, b, c),
    ensures
        connected(links, a, c),
{
    assert(is_path(links, seq![b, c]));
    assert(seq![b, c].last() == c);
    lemma_connected_transitive(links, a, b, c);
}

/// A set of files that every link out of it leads back to holds each path
/// that starts in it.
proof fn lemma_closed(
    links: Seq<(Seq<char>, Seq<char>)>,
    files: Seq<Seq<char>>,
    path: Seq<Seq<char>>,
)
    requires
        is_path(links, path),
        files.contains(path.first()),
        forall|a: Seq<char>, b: Seq<char>|
            files.contains(a) && #[trigger] linked(links, a, b) ==> files.contains(b),
    ensures
        files.contains(path.last()),
    decreases path.len(),
{
    if path.len() > 1 {
        let rest = path.drop_first();
        assert(linked(links, path[0], path[1]));
        assert forall|i: int| 0 <= i < rest.len() - 1 implies linked(
            links,
            #[trigger] rest[i],
            rest[i + 1],
        ) by {
            assert(linked(links, path[i + 1], path[i + 2]));
        }
        lemma_closed(links, files, rest);
    }
}

/// The files that `files` can hold: the one that the walk starts at and the
/// two ends of each link.
spec fn ends(links: Seq<(Seq<char>, Seq<char>)>, start: Seq<char>) -> Seq<Seq<char>> {
    seq![start] + links.map_values(|link: (Seq<char>, Seq<char>)| link.0) + links.map_values(
        |link: (Seq<char>, Seq<char>)| link.1,
    )
}

proof fn lemma_few(
    links: Seq<(Seq<char>, Seq<char>)>,
    start: Seq<char>,
    files: Seq<Seq<char>>,
)
    requires
        files.no_duplicates(),
        forall|a: Seq<char>| files.contains(a) ==> ends(links, start).contains(a),
    ensures
        files.len() <= 1 + 2 * links.len(),
{
    let all = ends(links, start);
    files.unique_seq_to_set();
    all.lemma_cardinality_of_set();
    assert(files.to_set().subset_of(all.to_set()));
    vstd::set_lib::lemma_len_subset(files.to_set(), all.to_set());
}

fn push_new(files: &mut Vec<String>, file: &String)
    requires
        old(files).deep_view().no_duplicates(),
    ensures
        final(files).deep_view() == if old(files).deep_view().contains(file@) {
            old(files).deep_view()
        } else {
            old(files).deep_view().push(file@)
        },
        final(files).deep_view().no_duplicates(),
{
    let mut k: usize = 0;
    while k < files.len()
        invariant
            k <= files.len(),
            *files == *old(files),
            files.deep_view().no_duplicates(),
            forall|j: int| 0 <= j < k ==> (#[trigger] files.deep_view()[j]) != file@,
        decreases files.len() - k,
    {
        if files[k] == *file {
            assert(files.deep_view()[k as int] == file@);
            return;
        }
        k += 1;
    }
    files.push(file.clone());
    assert(files.deep_view() =~= old(files).deep_view().push(file@));
}

/// Takes to `files` what `link` joins with `file`.
fn follow(files: &mut Vec<String>, link: &(String, String), file: &String)
    requires
        old(files).deep_view().no_duplicates(),
    ensures
        final(files).deep_view().no_duplicates(),
        old(files).deep_view().is_prefix_of(final(files).deep_view()),
        forall|a: Seq<char>| #[trigger]
            final(files).deep_view().contains(a) <==> old(files).deep_view().contains(a) || (
            link.0@ == file@ && a == link.1@) || (link.1@ == file@ && a == link.0@),
{
    let ghost before = files.deep_view();
    if link.0 == *file {
        push_new(files, &link.1);
    }
    let ghost middle = files.deep_view();
    proof {
        lemma_pushed(before, link.1@);
    }
    if link.1 == *file {
        push_new(files, &link.0);
    }
    proof {
        lemma_pushed(middle, link.0@);
    }
}

proof fn lemma_pushed(files: Seq<Seq<char>>, file: Seq<char>)
    ensures
        forall|a: Seq<char>| #[trigger]
            files.push(file).contains(a) <==> files.contains(a) || a == file,
{
    assert forall|a: Seq<char>| files.contains(a) || a == file implies #[trigger] files.push(
        file,
    ).contains(a) by {
        if a == file {
            assert(files.push(file)[files.len() as int] == a);
        } else {
            let j = choose|j: int| 0 <= j < files.len() && files[j] == a;
            assert(files.push(file)[j] == a);
        }
    }
}

/// The files that are connected with `start`, each once.
pub fn component(links: &Vec<(String, String)>, start: &str) -> (r: Vec<String>)
    ensures
        r.deep_view().no_duplicates(),
        forall|file: Seq<char>| #[trigger]
            r.deep_view().contains(file) <==> connected(links.deep_view(), start@, file),
{
    let ghost edges = links.deep_view();
    let mut files: Vec<String> = Vec::new();
    files.push(start.to_owned());
    proof {
        assert(files.deep_view() =~= seq![start@]);
        lemma_connected_reflexive(edges, start@);
        assert(ends(edges, start@)[0] == start@);
        lemma_few(edges, start@, files.deep_view());
    }
    let mut i: usize = 0;
    while i < files.len()
        invariant
            edges == links.deep_view(),
            i <= files.len() <= 1 + 2 * edges.len(),
            files.deep_view().no_duplicates(),
            files.deep_view().contains(start@),
            forall|a: Seq<char>|
                #![trigger files.deep_view().contains(a)]
                files.deep_view().contains(a) ==> connected(edges, start@, a) && ends(
                    edges,
                    start@,
                ).contains(a),
            forall|j: int, b: Seq<char>|
                0 <= j < i && #[trigger] linked(edges, files.deep_view()[j], b)
                    ==> files.deep_view().contains(b),
        decreases 1 + 2 * edges.len() - i,
    {
        let file = files[i].clone();
        let mut k: usize = 0;
        while k < links.len()
            invariant
                edges == links.deep_view(),
                i < files.len(),
                k <= links.len(),
                files.deep_view()[i as int] == file@,
                files.deep_view().no_duplicates(),
                files.deep_view().contains(start@),
                forall|a: Seq<char>|
                    #![trigger files.deep_view().contains(a)]
                    files.deep_view().contains(a) ==> connected(edges, start@, a) && ends(
                        edges,
                        start@,
                    ).contains(a),
                forall|j: int, b: Seq<char>|
                    0 <= j < i && #[trigger] linked(edges, files.deep_view()[j], b)
                        ==> files.deep_view().contains(b),
                forall|n: int|
                    #![trigger edges[n]]
                    0 <= n < k ==> (edges[n].0 == file@ ==> files.deep_view().contains(
                        edges[n].1,
                    )) && (edges[n].1 == file@ ==> files.deep_view().contains(edges[n].0)),
            decreases links.len() - k,
        {
            let ghost before = files.deep_view();
            proof {
                let edge = edges[k as int];
                assert(edges.contains(edge));
                assert(edge.0 == links[k as int].0@ && edge.1 == links[k as int].1@);
                assert(before.contains(file@));
                if edge.0 == file@ {
                    lemma_step(edges, start@, file@, edge.1);
                }
                if edge.1 == file@ {
                    lemma_step(edges, start@, file@, edge.0);
                }
                assert(ends(edges, start@)[1 + k] == edge.0);
                assert(ends(edges, start@)[1 + edges.len() + k] == edge.1);
            }
            follow(&mut files, &links[k], &file);
            proof {
                let now = files.deep_view();
                assert forall|j: int, b: Seq<char>|
                    0 <= j < i && #[trigger] linked(edges, now[j], b) implies now.contains(b) by {
                    assert(before[j] == now[j]);
                    assert(linked(edges, before[j], b));
                    assert(before.contains(b));
                }
            }
            k += 1;
        }
        proof {
            let now = files.deep_view();
            assert forall|j: int, b: Seq<char>|
                0 <= j < i + 1 && #[trigger] linked(edges, now[j], b) implies now.contains(b) by {
                if j == i {
                    if edges.contains((now[j], b)) {
                        let n = choose|n: int| 0 <= n < edges.len() && edges[n] == (now[j], b);
                        assert(edges[n].0 == file@);
                    } else {
                        let n = choose|n: int| 0 <= n < edges.len() && edges[n] == (b, now[j]);
                        assert(edges[n].1 == file@);
                    }
                }
            }
            lemma_few(edges, start@, now);
        }
        i += 1;
    }
    proof {
        let all = files.deep_view();
        assert forall|a: Seq<char>, b: Seq<char>|
            all.contains(a) && #[trigger] linked(edges, a, b) implies all.contains(b) by {
            let j = choose|j: int| 0 <= j < all.len() && all[j] == a;
            assert(linked(edges, all[j], b));
        }
        assert forall|file: Seq<char>| connected(edges, start@, file) implies #[trigger]
            all.contains(file) by {
            let path = choose|path: Seq<Seq<char>>| #[trigger]
                is_path(edges, path) && path.first() == start@ && path.last() == file;
            lemma_closed(edges, all, path);
        }
    }
    files
}

} // verus!
