use std::collections::HashMap;

use vram_booster::scope::{ScopeSearch, SearchAction, SearchEvent};

/// A process table held in memory: cgroup body, and per task its children.
struct Procs {
    cgroup: HashMap<u32, String>,
    tasks: HashMap<u32, Vec<(String, String)>>,
}

fn find(procs: &Procs, pid: u32, max_depth: usize) -> (Option<String>, Vec<String>) {
    let mut reads = Vec::new();
    let (mut search, mut action) = ScopeSearch::start(pid, max_depth);
    loop {
        action = match action {
            SearchAction::ReadCgroup(p) => {
                reads.push(format!("cgroup {p}"));
                search.step(SearchEvent::Cgroup(procs.cgroup.get(&p).cloned()))
            }
            SearchAction::ListTasks(p) => {
                reads.push(format!("tasks {p}"));
                let names = procs.tasks.get(&p).map(|t| t.iter().map(|(n, _)| n.clone()).collect());
                search.step(SearchEvent::Tasks(names))
            }
            SearchAction::ReadChildren(p, t) => {
                reads.push(format!("children {p}/{t}"));
                let body = procs
                    .tasks
                    .get(&p)
                    .and_then(|ts| ts.iter().find(|(n, _)| n.parse::<u32>() == Ok(t)))
                    .map(|(_, c)| c.clone());
                search.step(SearchEvent::Children(body))
            }
            SearchAction::Found(cg) => return (Some(cg), reads),
            SearchAction::NotFound => return (None, reads),
        }
    }
}

fn tree() -> Procs {
    let mut cgroup = HashMap::new();
    let mut tasks = HashMap::new();
    cgroup.insert(1, "0::/user.slice/session.slice/shell.scope\n".to_string());
    cgroup.insert(2, "0::/user.slice/session.slice/x.scope\n".to_string());
    cgroup.insert(3, "0::/user.slice/u/app.slice/app-game.scope\n".to_string());
    cgroup.insert(4, "0::/user.slice/u/app.slice/app-deep.scope\n".to_string());
    tasks.insert(1, vec![("1".to_string(), "2 junk\n".to_string()), ("x".to_string(), "9".to_string()), ("11".to_string(), "3".to_string())]);
    tasks.insert(2, vec![("2".to_string(), "5".to_string())]);
    tasks.insert(5, vec![("5".to_string(), "4".to_string())]);
    cgroup.insert(5, "0::/user.slice/session.slice/y.scope\n".to_string());
    Procs { cgroup, tasks }
}

#[test]
fn finds_the_focused_process_itself() {
    let (found, reads) = find(&tree(), 3, 3);
    assert_eq!(found, Some("/sys/fs/cgroup/user.slice/u/app.slice/app-game.scope".to_string()));
    assert_eq!(reads, vec!["cgroup 3"]);
}

#[test]
fn searches_children_depth_first_in_order() {
    let (found, reads) = find(&tree(), 1, 3);
    // 1 -> task 1 -> child 2 -> child 5 -> child 4 (depth 3) is an app scope
    assert_eq!(found, Some("/sys/fs/cgroup/user.slice/u/app.slice/app-deep.scope".to_string()));
    assert_eq!(
        reads,
        vec!["cgroup 1", "tasks 1", "children 1/1", "cgroup 2", "tasks 2", "children 2/2", "cgroup 5", "tasks 5", "children 5/5", "cgroup 4"]
    );
}

#[test]
fn depth_limit_stops_the_search() {
    let (found, reads) = find(&tree(), 1, 2);
    // process 5 is at the limit: not looked into; task 11's child 3 is found
    assert_eq!(found, Some("/sys/fs/cgroup/user.slice/u/app.slice/app-game.scope".to_string()));
    assert_eq!(
        reads,
        vec!["cgroup 1", "tasks 1", "children 1/1", "cgroup 2", "tasks 2", "children 2/2", "cgroup 5", "children 1/11", "cgroup 3"]
    );
}

#[test]
fn nothing_found() {
    let (found, reads) = find(&tree(), 7, 3);
    assert_eq!(found, None);
    assert_eq!(reads, vec!["cgroup 7", "tasks 7"]);
    let (found, _) = find(&tree(), 1, 0);
    assert_eq!(found, None);
}
