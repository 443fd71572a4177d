use grouped_topo_sort::dir_graph::assert_toposort_possible;
use grouped_topo_sort::executor::execute_hoists;
use grouped_topo_sort::fixer::find_all_hoists_needed;
use grouped_topo_sort::front_end_input::inner_parse;
use grouped_topo_sort::front_end_input::ImportedTarget;
use grouped_topo_sort::tree::DepGraph;
use grouped_topo_sort::tree::DirName;
use grouped_topo_sort::tree::Hoist;

fn strings(value: &serde_json::Value) -> Vec<String> {
    value
        .as_array()
        .unwrap()
        .iter()
        .map(|x| x.as_str().unwrap().to_string())
        .collect()
}

fn read(text: &str) -> Vec<ImportedTarget> {
    let value: serde_json::Value = serde_json::from_str(text).unwrap();
    value
        .as_array()
        .unwrap()
        .iter()
        .map(|x| ImportedTarget {
            provides: x["provides"].as_str().unwrap().to_string(),
            ddeps: strings(&x["ddeps"]),
            ideal_path: strings(&x["ideal_path"]),
        })
        .collect()
}

fn write(hoists: &Vec<Hoist>, deps: &DepGraph, owner: &Vec<DirName>) -> String {
    let mut list = Vec::new();
    for hoist in hoists {
        let mut object = serde_json::Map::new();
        object.insert(
            "target".to_string(),
            serde_json::Value::String(deps.nodes[hoist.target].provides.0.clone()),
        );
        object.insert(
            "actual_path".to_string(),
            serde_json::Value::Array(
                hoist
                    .chosen_path
                    .iter()
                    .map(|&id| serde_json::Value::String(owner[id].0.clone()))
                    .collect(),
            ),
        );
        list.push(serde_json::Value::Object(object));
    }
    serde_json::to_string_pretty(&serde_json::Value::Array(list)).unwrap()
}

const CLASSIC: &str = r#"
            [
                {
                    "provides": "foo",
                    "ddeps": ["bar", "other"],
                    "ideal_path": ["top", "midShared", "bottom"]
                },
                {
                    "provides": "bar",
                    "ddeps": [],
                    "ideal_path": ["top", "midShared"]
                },
                {
                    "provides": "other",
                    "ddeps": ["bar"],
                    "ideal_path": ["top", "midOther"]
                }
            ]
        "#;

#[test]
fn lib_test_end_to_end() {
    let mut owner = Vec::new();
    let (mut deps, mut tree) = inner_parse(&mut owner, read(CLASSIC)).unwrap();
    let mut hoists = Vec::new();
    find_all_hoists_needed(&mut hoists, &deps, &tree, vec![]).unwrap();
    let expected_result = r#"[
  {
    "target": "foo",
    "actual_path": [
      "top"
    ]
  }
]"#;
    let actual_result = write(&hoists, &deps, &owner);
    assert!(actual_result == expected_result);
    execute_hoists(&mut deps, &mut tree, &hoists);
    assert!(assert_toposort_possible(&deps, &tree).is_ok());
}

#[test]
fn main_test_end_to_end() {
    let mut owner = Vec::new();
    let (deps, tree) = inner_parse(&mut owner, read(CLASSIC)).unwrap();
    let mut hoists_needed = Vec::new();
    find_all_hoists_needed(&mut hoists_needed, &deps, &tree, vec![]).unwrap();
    let expected_result = r#"[
  {
    "target": "foo",
    "actual_path": [
      "top"
    ]
  }
]"#;
    let actual_result = write(&hoists_needed, &deps, &owner);
    assert!(actual_result == expected_result);
}
