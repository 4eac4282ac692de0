use elearn::exam::{ClusteringExam, ClusteringExamProb, ClusteringExamProbOption, ClusteringItem, ExamError};

fn item(label: &str, clsid: i32) -> ClusteringItem {
    ClusteringItem { data: label.to_string(), clsid }
}

fn exam(items: &[(&str, i32)]) -> ClusteringExam {
    ClusteringExam { data: items.iter().map(|(l, c)| item(l, *c)).collect() }
}

fn eight() -> ClusteringExam {
    exam(&[("A", 1), ("B", 1), ("C", 2), ("D", 2), ("E", 3), ("F", 3), ("G", 4), ("H", 4)])
}

fn cluster_of(e: &ClusteringExam, label: &str) -> i32 {
    e.data.iter().find(|i| i.data == label).unwrap().clsid
}

/// Checks a problem on a dataset whose labels are unique.
fn check_problem(e: &ClusteringExam, p: &ClusteringExamProb) {
    let c = cluster_of(e, &p.head);
    let same: Vec<usize> = (0..p.opts.len()).filter(|k| cluster_of(e, &p.opts[*k].html) == c).collect();
    assert_eq!(same.len(), 1);
    assert_eq!(p.answer as usize, same[0]);
    assert_ne!(p.opts[same[0]].html, p.head);
    for (k, o) in p.opts.iter().enumerate() {
        assert_eq!(o.id as usize, k);
    }
}

#[test]
fn column_count_empty_is_one() {
    assert_eq!(exam(&[]).column_count(), 1);
}

#[test]
fn column_count_largest_cluster() {
    let e = exam(&[("a", 5), ("b", 2), ("c", 5), ("d", 5), ("e", 2)]);
    assert_eq!(e.column_count(), 3);
    assert_eq!(exam(&[("a", 1), ("b", 2)]).column_count(), 1);
}

#[test]
fn cluster_size_counts() {
    let e = exam(&[("a", 5), ("b", 2), ("c", 5)]);
    assert_eq!(e.cluster_size(5), 2);
    assert_eq!(e.cluster_size(2), 1);
    assert_eq!(e.cluster_size(9), 0);
}

#[test]
fn table_ascending_groups() {
    let e = exam(&[("a", 3), ("b", -1), ("c", 3), ("d", 0), ("e", -1)]);
    let t = e.table();
    let labels: Vec<Vec<&str>> = t.iter().map(|g| g.iter().map(|i| i.data.as_str()).collect()).collect();
    assert_eq!(labels, vec![vec!["b", "e"], vec!["d"], vec!["a", "c"]]);
    assert_eq!(t[0][0].clsid, -1);
    assert_eq!(t[2][1].clsid, 3);
    assert!(exam(&[]).table().is_empty());
}

#[test]
fn cluster_id_list_sorted() {
    let e = exam(&[("a", 3), ("b", -1), ("c", 3), ("d", 0)]);
    assert_eq!(e.cluster_id_list(), vec![-1, 0, 3]);
}

#[test]
fn opts_from_items_numbers_options() {
    let v = vec![item("x", 1), item("y", 2)];
    let o = ClusteringExamProbOption::opts_from_items(&v);
    assert_eq!(o.len(), 2);
    assert_eq!((o[0].id, o[0].html.as_str()), (0, "x"));
    assert_eq!((o[1].id, o[1].html.as_str()), (1, "y"));
}

#[test]
fn id_changed_keeps_the_rest() {
    let p = ClusteringExamProb { id: 0, answer: 2, head: "h".to_string(), explain: "e".to_string(), opts: vec![] };
    let q = p.id_changed(7);
    assert_eq!(q.id, 7);
    assert_eq!(q.answer, 2);
    assert_eq!(q.head, "h");
    assert_eq!(q.explain, "e");
}

#[test]
fn explanation_lists_cluster() {
    let e = eight();
    assert_eq!(e.explain_cluster(3), "以下字符同类： E F");
    assert_eq!(e.explain_cluster(9), "以下字符同类：");
}

#[test]
fn build_prob_exact() {
    let e = eight();
    let p = e.build_prob(0, &vec![4, 2, 1, 6]);
    assert_eq!(p.id, 0);
    assert_eq!(p.head, "A");
    assert_eq!(p.answer, 2);
    assert_eq!(p.explain, "以下字符同类： A B");
    let shown: Vec<&str> = p.opts.iter().map(|o| o.html.as_str()).collect();
    assert_eq!(shown, vec!["E", "C", "B", "G"]);
}

#[test]
fn others_of_positions() {
    let e = exam(&[("a", 1), ("b", 2), ("c", 1), ("d", 3)]);
    assert_eq!(e.others_of(1), vec![1, 3]);
}

#[test]
fn degenerate_count_gives_empty_batch() {
    assert_eq!(eight().gen_probs(0).unwrap().len(), 0);
    assert_eq!(exam(&[("solo", 1)]).gen_probs(0).unwrap().len(), 0);
}

#[test]
fn empty_dataset_gives_empty_batch() {
    assert_eq!(exam(&[]).gen_probs(5).unwrap().len(), 0);
    assert_eq!(exam(&[]).gen_probs(1).unwrap().len(), 0);
}

#[test]
fn scenario_eight_items_one_problem() {
    let e = eight();
    let v = e.gen_probs(1).unwrap();
    assert_eq!(v.len(), 1);
    let p = &v[0];
    assert_eq!(p.id, 0);
    assert!(["A", "B", "C", "D", "E", "F", "G", "H"].contains(&p.head.as_str()));
    assert_eq!(p.opts.len(), 4);
    check_problem(&e, p);
    let c = cluster_of(&e, &p.head);
    let outside = p.opts.iter().filter(|o| cluster_of(&e, &o.html) != c).count();
    assert_eq!(outside, 3);
    let mate = e.data.iter().find(|i| i.clsid == c && i.data != p.head).unwrap();
    assert_eq!(p.opts[p.answer as usize].html, mate.data);
    let members: Vec<&str> = e.data.iter().filter(|i| i.clsid == c).map(|i| i.data.as_str()).collect();
    assert_eq!(p.explain, format!("以下字符同类： {} {}", members[0], members[1]));
}

#[test]
fn cluster_coverage_holds_on_many_draws() {
    let e = exam(&[("a", 1), ("b", 1), ("c", 1), ("d", 2), ("e", 2), ("f", 3), ("g", 3), ("h", 4), ("i", 4), ("j", 5), ("k", 5)]);
    for _ in 0..50 {
        let v = e.gen_probs(25).unwrap();
        assert_eq!(v.len(), 25);
        for p in v.iter() {
            assert_eq!(p.opts.len(), 4);
            check_problem(&e, p);
        }
    }
}

#[test]
fn ids_are_positions() {
    let v = eight().gen_probs(20).unwrap();
    let ids: Vec<i32> = v.iter().map(|p| p.id).collect();
    assert_eq!(ids, (0..20).collect::<Vec<i32>>());
}

#[test]
fn few_clusters_give_fewer_options() {
    let e = exam(&[("a", 1), ("b", 1), ("c", 2), ("d", 2)]);
    for p in e.gen_probs(10).unwrap().iter() {
        assert_eq!(p.opts.len(), 3);
        check_problem(&e, p);
    }
    let one = exam(&[("a", 1), ("b", 1)]);
    for p in one.gen_probs(4).unwrap().iter() {
        assert_eq!(p.opts.len(), 1);
        assert_eq!(p.answer, 0);
    }
}

#[test]
fn singleton_cluster_head_is_reported() {
    let e = exam(&[("solo", 7)]);
    assert_eq!(e.gen_probs(1).unwrap_err(), ExamError::InsufficientClusterSize(7));
    let mixed = exam(&[("a", 1), ("b", 1), ("solo", 9)]);
    let mut rng = rand::thread_rng();
    assert_eq!(mixed.gen_prob(&mut rng, 2).unwrap_err(), ExamError::InsufficientClusterSize(9));
    assert!(mixed.gen_prob(&mut rng, 0).is_ok());
    // Three heads out of three items take every item once, the singleton too.
    assert_eq!(mixed.gen_probs(3).unwrap_err(), ExamError::InsufficientClusterSize(9));
}

#[test]
fn distinct_label_preferred_as_answer() {
    let e = exam(&[("X", 1), ("X", 1), ("Y", 1), ("p", 2), ("q", 3), ("r", 4)]);
    let mut rng = rand::thread_rng();
    for _ in 0..50 {
        let p = e.gen_prob(&mut rng, 0).unwrap();
        assert_eq!(p.opts[p.answer as usize].html, "Y");
    }
}

#[test]
fn same_label_answer_when_no_other_label() {
    let e = exam(&[("X", 1), ("X", 1), ("p", 2), ("q", 3), ("r", 4)]);
    let mut rng = rand::thread_rng();
    let p = e.gen_prob(&mut rng, 0).unwrap();
    assert_eq!(p.opts.len(), 4);
    assert_eq!(p.opts[p.answer as usize].html, "X");
    assert_eq!(p.opts.iter().filter(|o| o.html == "X").count(), 1);
}

#[test]
fn head_multiplicity_bound() {
    let e = exam(&[("a", 1), ("b", 1), ("c", 2)]);
    let mut rng = rand::thread_rng();
    for _ in 0..50 {
        let h = e.head_positions(&mut rng, 10);
        assert_eq!(h.len(), 10);
        for x in 0..3usize {
            assert!(h.iter().filter(|&&y| y == x).count() <= 4);
            assert!(h.contains(&x));
        }
        for pass in h.chunks(3) {
            let mut p = pass.to_vec();
            p.sort();
            p.dedup();
            assert_eq!(p.len(), pass.len());
        }
    }
}

#[test]
fn head_positions_take_a_sample() {
    let e = exam(&[("a", 1), ("b", 1), ("c", 2), ("d", 2), ("e", 3)]);
    let mut rng = rand::thread_rng();
    let h = e.head_positions(&mut rng, 2);
    assert_eq!(h.len(), 2);
    assert_ne!(h[0], h[1]);
    assert!(h.iter().all(|&x| x < 5));
}

#[test]
fn answer_position_varies() {
    let e = eight();
    let mut seen = [false; 4];
    for p in e.gen_probs(400).unwrap().iter() {
        seen[p.answer as usize] = true;
    }
    assert!(seen.iter().all(|&s| s));
}

#[test]
fn cluster_sizes_ascending() {
    let e = exam(&[("a", 5), ("b", 2), ("c", 5), ("d", -3)]);
    assert_eq!(e.cluster_sizes(), vec![(-3, 1), (2, 1), (5, 2)]);
    assert!(exam(&[]).cluster_sizes().is_empty());
}

#[test]
fn large_batch_with_singleton_always_fails() {
    let e = exam(&[("a", 1), ("b", 1), ("c", 2), ("d", 2), ("solo", 3)]);
    for _ in 0..20 {
        assert_eq!(e.gen_probs(5).unwrap_err(), ExamError::InsufficientClusterSize(3));
    }
}
