use egglog_experimental::prelude::exprs;
use egglog_experimental::scheduler::{Matches, Scheduler};
use egglog_experimental::EGraph;
use linear_algebra_compiler::scheduler::{
    new_first_n_scheduler, try_new_first_n_scheduler, FirstNScheduler,
};

#[derive(Clone)]
struct FirstN(FirstNScheduler);

impl Scheduler for FirstN {
    fn filter_matches(&mut self, rule: &str, ruleset: &str, matches: &mut Matches) -> bool {
        self.0.filter_matches(rule, ruleset, matches)
    }
}

#[test]
fn scheduler_from_integer_argument() {
    let egraph = EGraph::default();
    let s = new_first_n_scheduler(&egraph, &[exprs::int(5)]);
    assert_eq!(s.n, 5);
    let s = new_first_n_scheduler(&egraph, &[exprs::int(0)]);
    assert_eq!(s.n, 0);
}

#[test]
fn scheduler_arguments_are_checked() {
    let egraph = EGraph::default();
    assert_eq!(try_new_first_n_scheduler(&egraph, &[exprs::int(3)]).map(|s| s.n), Some(3));
    assert!(try_new_first_n_scheduler(&egraph, &[]).is_none());
    assert!(try_new_first_n_scheduler(&egraph, &[exprs::int(1), exprs::int(2)]).is_none());
    assert!(try_new_first_n_scheduler(&egraph, &[exprs::var("n")]).is_none());
    assert!(try_new_first_n_scheduler(&egraph, &[exprs::string("3")]).is_none());
}

#[test]
fn first_n_scheduler_fires_at_most_n_matches_per_step() {
    let mut egraph = EGraph::default();
    let id = egraph.add_scheduler(Box::new(FirstN(FirstNScheduler { n: 10 })));
    let input = r#"
        (relation R (i64))
        (R 0)
        (rule ((R x) (< x 100)) ((R (+ x 1))))
        (run-schedule (saturate (run)))

        (ruleset test)
        (relation S (i64))
        (rule ((R x)) ((S x)) :ruleset test :name "test-rule")
        "#;
    egraph.parse_and_run_program(None, input).unwrap();
    assert_eq!(egraph.get_size("R"), 101);
    let mut previous = 0;
    let mut steps = 0;
    while egraph.get_size("S") < 101 && steps < 100 {
        egraph.step_rules_with_scheduler(id, "test").unwrap();
        let size = egraph.get_size("S");
        assert!(size <= previous + 10);
        previous = size;
        steps += 1;
    }
    assert_eq!(egraph.get_size("S"), 101);
    assert!(steps >= 11);
}

#[test]
fn first_n_scheduler_fires_everything_when_few_matches() {
    let mut egraph = EGraph::default();
    let id = egraph.add_scheduler(Box::new(FirstN(FirstNScheduler { n: 1000 })));
    let input = r#"
        (relation R (i64))
        (R 0)
        (rule ((R x) (< x 100)) ((R (+ x 1))))
        (run-schedule (saturate (run)))

        (ruleset test)
        (relation S (i64))
        (rule ((R x)) ((S x)) :ruleset test :name "test-rule")
        "#;
    egraph.parse_and_run_program(None, input).unwrap();
    egraph.step_rules_with_scheduler(id, "test").unwrap();
    assert_eq!(egraph.get_size("S"), 101);
}
