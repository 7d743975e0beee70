use git_scrubber::data::Identity;
use git_scrubber::data::Oid;
use git_scrubber::data::SourceCommit;
use git_scrubber::data::Timestamp;
use git_scrubber::redact::redact_identity;
use git_scrubber::redact::RedactConfig;
use git_scrubber::rewrite::rewrite_history;
use git_scrubber::rewrite::PlanEntry;
use git_scrubber::rewrite::RewriteError;

fn oid(n: u64) -> Oid {
    Oid { hi: n, mid: 0, lo: 0 }
}

fn person(name: &str, email: &str, seconds: i64) -> Identity {
    Identity {
        name: name.as_bytes().to_vec(),
        email: email.as_bytes().to_vec(),
        when: Timestamp { seconds, offset_minutes: -300 },
    }
}

fn commit(id: Oid, parents: Vec<Oid>, who: &str) -> SourceCommit {
    SourceCommit {
        id,
        parents,
        author: person(who, &format!("{}@example.com", who), 1_000),
        committer: person("the committer", "committer@example.com", 2_000),
    }
}

fn entry_for(plan: &[PlanEntry], source: Oid) -> usize {
    let hits: Vec<usize> =
        (0..plan.len()).filter(|i| plan[*i].source == source).collect();
    assert_eq!(hits.len(), 1, "exactly one plan entry per source commit");
    hits[0]
}

fn empty_tree() -> Oid {
    Oid { hi: 77, mid: 77, lo: 77 }
}

#[test]
fn linear_history_mirrors_shape_and_keeps_authors() {
    // root <- a <- b, redaction disabled, start at b.
    let graph = vec![
        commit(oid(1), vec![], "root author"),
        commit(oid(2), vec![oid(1)], "middle author"),
        commit(oid(3), vec![oid(2)], "tip author"),
    ];
    let config = RedactConfig::new(false, None);
    let plan = rewrite_history(&graph, oid(3), config, empty_tree()).unwrap();

    assert_eq!(plan.len(), 3);
    let r = entry_for(&plan, oid(1));
    let a = entry_for(&plan, oid(2));
    let b = entry_for(&plan, oid(3));
    assert_eq!((r, a, b), (0, 1, 2));
    assert_eq!(plan[r].commit.parents, Vec::<Oid>::new());
    assert_eq!(plan[a].commit.parents, vec![plan[r].new_id]);
    assert_eq!(plan[b].commit.parents, vec![plan[a].new_id]);
    for e in &plan {
        assert_eq!(e.commit.message, "redacted");
        assert_eq!(e.commit.tree, empty_tree());
    }
    assert_eq!(plan[b].commit.author.name, b"tip author".to_vec());
    assert_eq!(plan[b].commit.author.email, b"tip author@example.com".to_vec());
    assert_eq!(plan[b].commit.author.when, Timestamp { seconds: 1_000, offset_minutes: -300 });
    assert_eq!(plan[b].commit.committer.name, b"the committer".to_vec());
}

#[test]
fn merge_history_keeps_parent_order_and_shares_pseudonyms() {
    // root <- a, root <- b, merge m with parents [a, b]; redaction on, key "k".
    // The same contributor authors a and m.
    let graph = vec![
        commit(oid(10), vec![], "somebody"),
        commit(oid(11), vec![oid(10)], "carol"),
        commit(oid(12), vec![oid(10)], "dave"),
        commit(oid(13), vec![oid(11), oid(12)], "carol"),
    ];
    let config = RedactConfig::new(true, Some("k"));
    let plan = rewrite_history(&graph, oid(13), config, empty_tree()).unwrap();

    // The diamond: root is reachable through both a and b yet is rewritten
    // exactly once.
    assert_eq!(plan.len(), 4);
    let root = entry_for(&plan, oid(10));
    let a = entry_for(&plan, oid(11));
    let b = entry_for(&plan, oid(12));
    let m = entry_for(&plan, oid(13));
    assert!(root < a && root < b && a < m && b < m);

    // Parent count and order of the merge are preserved after remapping.
    assert_eq!(plan[m].commit.parents, vec![plan[a].new_id, plan[b].new_id]);

    // One contributor, one pseudonym, in both commits.
    assert_eq!(plan[a].commit.author.name, plan[m].commit.author.name);
    assert_ne!(plan[a].commit.author.name, b"carol".to_vec());
    // Distinct contributors stay distinct.
    assert_ne!(plan[b].commit.author.name, plan[m].commit.author.name);

    // The pseudonyms equal a direct redaction of the same identity.
    let again = RedactConfig::new(true, Some("k"));
    let direct = redact_identity(&again, &graph[1].author);
    assert_eq!(plan[a].commit.author.name, direct.name);
    assert_eq!(plan[a].commit.author.email, direct.email);
}

#[test]
fn every_entry_erases_content() {
    let graph = vec![
        commit(oid(1), vec![], "x"),
        commit(oid(2), vec![oid(1)], "y"),
        commit(oid(3), vec![oid(2), oid(1)], "z"),
    ];
    let plan =
        rewrite_history(&graph, oid(3), RedactConfig::new(true, Some("s")), oid(9)).unwrap();
    for e in &plan {
        assert_eq!(e.commit.message, "redacted");
        assert_eq!(e.commit.tree, oid(9));
    }
}

#[test]
fn unreachable_commits_are_not_rewritten() {
    let graph = vec![
        commit(oid(1), vec![], "x"),
        commit(oid(2), vec![oid(1)], "y"),
        commit(oid(5), vec![oid(1)], "stray"),
    ];
    let plan =
        rewrite_history(&graph, oid(2), RedactConfig::new(false, None), empty_tree()).unwrap();
    assert_eq!(plan.len(), 2);
    assert!(plan.iter().all(|e| e.source != oid(5)));
}

#[test]
fn parents_are_finalized_before_their_children() {
    let graph = vec![
        commit(oid(1), vec![], "x"),
        commit(oid(2), vec![oid(1)], "y"),
        commit(oid(3), vec![oid(1)], "z"),
        commit(oid(4), vec![oid(2), oid(3)], "w"),
        commit(oid(5), vec![oid(4), oid(1)], "v"),
    ];
    let plan =
        rewrite_history(&graph, oid(5), RedactConfig::new(false, None), empty_tree()).unwrap();
    assert_eq!(plan.len(), 5);
    for i in 0..plan.len() {
        let src = entry_for(&plan, plan[i].source);
        assert_eq!(src, i);
        // every mapped parent id was assigned by an earlier entry
        for p in &plan[i].commit.parents {
            let owner = (0..plan.len()).find(|j| plan[*j].new_id == *p).unwrap();
            assert!(owner < i);
        }
    }
}

#[test]
fn missing_commit_aborts_with_its_id() {
    let graph = vec![commit(oid(2), vec![oid(1)], "y")];
    let err = rewrite_history(&graph, oid(2), RedactConfig::new(false, None), empty_tree())
        .unwrap_err();
    assert_eq!(err, RewriteError::MissingCommit(oid(1)));
}

#[test]
fn missing_start_aborts() {
    let graph: Vec<SourceCommit> = vec![];
    let err = rewrite_history(&graph, oid(1), RedactConfig::new(false, None), empty_tree())
        .unwrap_err();
    assert_eq!(err, RewriteError::MissingCommit(oid(1)));
}

#[test]
fn rerunning_with_the_same_key_rebuilds_the_same_target() {
    let graph = vec![
        commit(oid(1), vec![], "root author"),
        commit(oid(2), vec![oid(1)], "carol"),
        commit(oid(3), vec![oid(1)], "dave"),
        commit(oid(4), vec![oid(2), oid(3)], "carol"),
    ];
    let first =
        rewrite_history(&graph, oid(4), RedactConfig::new(true, Some("k")), empty_tree()).unwrap();
    let second =
        rewrite_history(&graph, oid(4), RedactConfig::new(true, Some("k")), empty_tree()).unwrap();
    assert_eq!(first.len(), second.len());
    for (e1, e2) in first.iter().zip(second.iter()) {
        assert_eq!(e1.source, e2.source);
        assert_eq!(e1.new_id, e2.new_id);
        assert_eq!(e1.commit.parents, e2.commit.parents);
        assert_eq!(e1.commit.message, e2.commit.message);
        assert_eq!(e1.commit.tree, e2.commit.tree);
        assert_eq!(e1.commit.author.name, e2.commit.author.name);
        assert_eq!(e1.commit.author.email, e2.commit.author.email);
        assert_eq!(e1.commit.author.when, e2.commit.author.when);
        assert_eq!(e1.commit.committer.name, e2.commit.committer.name);
        assert_eq!(e1.commit.committer.email, e2.commit.committer.email);
    }
}

#[test]
fn single_root_history_rewrites_to_one_commit() {
    let graph = vec![commit(oid(1), vec![], "only")];
    let plan =
        rewrite_history(&graph, oid(1), RedactConfig::new(false, None), empty_tree()).unwrap();
    assert_eq!(plan.len(), 1);
    assert_eq!(plan[0].source, oid(1));
    assert_eq!(plan[0].commit.parents.len(), 0);
    assert_eq!(plan[0].commit.message, "redacted");
}
