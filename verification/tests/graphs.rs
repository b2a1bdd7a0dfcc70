use decompiler::dominators::intersect;
use decompiler::graph::{BasicBlock, EdgeKind, EdgeLabel, Graph};
use decompiler::parser::{parse_program, VmCommand};
use decompiler::pipeline::{
    decompile_function, split_functions, to_untyped_ir, DecompileError, FunctionError, VmFunction,
};
use decompiler::lifter::{BlockLiftError, LiftError};
use decompiler::structure::{Stop, StructureError};
use decompiler::untyped_ir::UnTypedIR;

fn build(source: &str) -> Graph<VmCommand> {
    Graph::build(parse_program(source).unwrap())
}

fn succs(g: &Graph<VmCommand>) -> Vec<Vec<usize>> {
    g.nodes.iter().map(|b| b.neighbors.clone()).collect()
}

fn block(neighbors: Vec<usize>, commands: Vec<UnTypedIR>) -> BasicBlock<UnTypedIR> {
    BasicBlock { index: 0, neighbors, label: None, commands }
}

fn graph(blocks: Vec<BasicBlock<UnTypedIR>>, taken: Vec<(usize, usize)>) -> Graph<UnTypedIR> {
    let mut g: Graph<UnTypedIR> = Graph::new();
    for b in blocks {
        g.nodes.push(b);
    }
    for i in 0..g.nodes.len() {
        g.nodes[i].index = i;
    }
    for (s, d) in taken {
        g.set_kind(s, d, EdgeKind::IfGoto);
    }
    g
}

const DIAMOND: &str = "push local 0\nif-goto T\npush constant 1\npop local 1\ngoto J\n\
                       label T\npush constant 2\npop local 1\nlabel J\npush local 1\nreturn\n";

const LOOP: &str = "label L\npush local 0\npush constant 10\nlt\nif-goto END\n\
                    push local 0\npush constant 1\nadd\npop local 0\ngoto L\nlabel END\n";

#[test]
fn an_empty_stream_builds_the_entry_alone() {
    let g = Graph::build(vec![]);
    assert_eq!(g.len(), 1);
    assert!(g.nodes[0].is_empty());
    assert_eq!(g.nodes[0].index, 0);
}

#[test]
fn the_diamond_has_its_edges_and_kinds() {
    let g = build(DIAMOND);
    assert_eq!(succs(&g), vec![vec![1, 2], vec![3], vec![3], vec![], vec![]]);
    assert_eq!(g.edge_kind(0, 1), Some(EdgeKind::IfGoto));
    assert_eq!(g.edge_kind(0, 2), None);
    assert_eq!(g.edge_kind(2, 3), Some(EdgeKind::Goto));
    assert_eq!(g.edge_kind(1, 3), None);
    assert_eq!(g.nodes[1].label.as_deref(), Some("T"));
    assert_eq!(g.nodes[3].label.as_deref(), Some("J"));
    assert_eq!(g.nodes[2].label, None);
    assert_eq!(g.nodes[2].commands.len(), 2);
    for (i, b) in g.nodes.iter().enumerate() {
        assert_eq!(b.index, i);
        assert!(b.neighbors.len() <= 2);
        for s in &b.neighbors {
            assert!(*s < g.len());
        }
        let branches = b.neighbors.iter().any(|s| g.edge_kind(i, *s) == Some(EdgeKind::IfGoto));
        assert_eq!(b.neighbors.len() == 2, branches);
    }
}

#[test]
fn a_jump_from_an_empty_block_names_the_block() {
    let g = build("goto A\nlabel B\npush constant 1\ngoto A\n");
    assert_eq!(g.nodes[0].label.as_deref(), Some("A"));
    assert_eq!(g.nodes[1].label.as_deref(), Some("B"));
    assert_eq!(succs(&g), vec![vec![], vec![0], vec![]]);
    assert_eq!(g.edge_kind(1, 0), Some(EdgeKind::Goto));
}

#[test]
fn dead_blocks_lose_their_successors_and_keep_their_place() {
    let g = build(LOOP);
    assert_eq!(g.len(), 4);
    assert_eq!(succs(&g), vec![vec![1, 2], vec![], vec![0], vec![]]);
    assert!(g.pred(1) == vec![0]);
    assert!(g.pred(0) == vec![2]);
    assert!(g.pred(3).is_empty());
}

#[test]
fn a_label_defined_twice_may_give_more_than_two_successors() {
    let g = build("label L\npush constant 1\nif-goto X\nlabel L\nif-goto Y\n");
    assert_eq!(g.nodes[0].neighbors.len(), 4);
}

#[test]
fn find_and_add() {
    let mut g = build(DIAMOND);
    assert_eq!(g.find_node_by_label(&"J".to_string()), Some(3));
    assert_eq!(g.find_node_by_label(&"K".to_string()), None);
    assert!(g.has_edge(0, 2));
    assert!(!g.has_edge(2, 0));
    g.add_edge(0, 2);
    assert_eq!(g.nodes[0].neighbors, vec![1, 2]);
    g.add_edge(3, 0);
    assert_eq!(g.nodes[3].neighbors, vec![0]);
    let n = g.add_node(BasicBlock::default());
    assert_eq!(n, 5);
    assert_eq!(g.nodes[5].index, 5);
    g.set_kind(0, 1, EdgeKind::Goto);
    assert_eq!(g.edge_kind(0, 1), Some(EdgeKind::Goto));
    assert_eq!(g.edge_label.len(), 3);
    let first: &EdgeLabel = &g.edge_label[0];
    assert_eq!((first.src, first.dst), (0, 1));
}

#[test]
fn dominators_of_the_diamond() {
    let g = build(DIAMOND);
    let d = g.dominate_nodes();
    assert_eq!(d[0], vec![1, 0, 0, 0, 0]);
    assert_eq!(d[1], vec![1, 1, 0, 0, 0]);
    assert_eq!(d[2], vec![1, 0, 1, 0, 0]);
    assert_eq!(d[3], vec![1, 0, 0, 1, 0]);
    assert_eq!(d[4], vec![1, 1, 1, 1, 1]);
    for n in 1..g.len() {
        let preds = g.pred(n);
        for j in 0..g.len() {
            let common = preds.iter().all(|p| d[*p][j] == 1);
            assert_eq!(d[n][j] == 1, j == n || common);
        }
    }
    let idom = g.idom_nodes(&d);
    assert_eq!(&idom[..4], &[0, 0, 0, 0]);
    assert_eq!(g.loop_headers(&d), vec![0, 0, 0, 0, 0]);
    assert_eq!(g.meet_row(&d, 3), vec![1, 0, 0, 1, 0]);
}

#[test]
fn dominators_of_the_loop() {
    let g = build(LOOP);
    let d = g.dominate_nodes();
    assert_eq!(d[0], vec![1, 0, 0, 0]);
    assert_eq!(d[1], vec![1, 1, 0, 0]);
    assert_eq!(d[2], vec![1, 0, 1, 0]);
    assert_eq!(d[3], vec![1, 1, 1, 1]);
    let lhs = g.loop_headers(&d);
    assert_eq!(lhs, vec![1, 0, 0, 0]);
    for h in 0..g.len() {
        let back = g.pred(h).iter().any(|u| d[*u][h] == 1);
        assert_eq!(lhs[h] == 1, back);
    }
}

#[test]
fn the_immediate_dominator_is_the_closest_whatever_the_numbering() {
    let g = graph(
        vec![block(vec![2], vec![]), block(vec![3], vec![]), block(vec![1], vec![]), block(vec![], vec![])],
        vec![],
    );
    let d = g.dominate_nodes();
    assert_eq!(d[3], vec![1, 1, 1, 1]);
    assert_eq!(d[1], vec![1, 1, 1, 0]);
    assert_eq!(g.idom_nodes(&d), vec![0, 2, 0, 1]);
}

#[test]
fn rows_are_intersected_entry_by_entry() {
    assert_eq!(intersect(&[1, 0, 1, 1], &[1, 1, 0, 1]), vec![1, 0, 0, 1]);
    assert_eq!(intersect(&[], &[1]), Vec::<usize>::new());
}

#[test]
fn a_block_that_branches_needs_a_condition() {
    let g = graph(
        vec![block(vec![1, 2], vec![]), block(vec![], vec![]), block(vec![], vec![])],
        vec![(0, 1)],
    );
    assert_eq!(g.try_reconstruct_code().err(), Some(StructureError::MissingCondition(0)));
}

#[test]
fn a_block_that_branches_needs_one_taken_and_one_other_edge() {
    let c = || vec![UnTypedIR::ConstInt(1)];
    let none = graph(vec![block(vec![1, 2], c()), block(vec![], vec![]), block(vec![], vec![])], vec![]);
    assert_eq!(none.try_reconstruct_code().err(), Some(StructureError::MissingTaken(0)));
    let both = graph(
        vec![block(vec![1, 2], c()), block(vec![], vec![]), block(vec![], vec![])],
        vec![(0, 1), (0, 2)],
    );
    assert_eq!(both.try_reconstruct_code().err(), Some(StructureError::MissingTaken(0)));
    let own = graph(vec![block(vec![0], c())], vec![(0, 0)]);
    assert_eq!(own.try_reconstruct_code().err(), Some(StructureError::MissingNotTaken(0)));
    assert_eq!(none.find_branch(0, true), None);
    assert_eq!(none.find_branch(0, false), None);
    let one = graph(
        vec![block(vec![1, 2], c()), block(vec![], vec![]), block(vec![], vec![])],
        vec![(0, 2)],
    );
    assert_eq!(one.taken_edge(0), 2);
    assert_eq!(one.not_taken_edge(0), 1);
    assert!(one.single_pred(1));
    assert!(!one.single_pred(0));
}

#[test]
fn a_cycle_without_an_exit_is_too_deep() {
    let src = "label L\npush local 0\nif-goto T\ngoto FIN\nlabel T\npush constant 5\n\
               pop local 1\ngoto L\nlabel FIN\npush constant 0\nreturn\n";
    let g = Graph::lift(&build(src)).unwrap();
    assert!(matches!(g.try_reconstruct_code(), Err(StructureError::TooDeep(_))));
}

#[test]
fn a_walk_stops_where_it_is_told() {
    let g = Graph::lift(&build(LOOP)).unwrap();
    let d = g.dominate_nodes();
    let lhs = g.loop_headers(&d);
    let (next, stmts) = g.reconstruct_from_node_until(2, &d, &lhs, Stop::At(0), 4).unwrap();
    assert_eq!(next, Some(0));
    assert_eq!(stmts.len(), 1);
    assert_eq!(stmts[0].to_text(), "let LCL_0 = 1 + LCL_0;");
    let (next, stmts) = g.reconstruct_from_node_until(2, &d, &lhs, Stop::Outside(0), 4).unwrap();
    assert_eq!(next, None);
    assert_eq!(stmts.len(), 2);
    assert!(Graph::should_stop(&d, Stop::Outside(2), 1));
    assert!(!Graph::should_stop(&d, Stop::Outside(0), 1));
    assert!(!Graph::should_stop(&d, Stop::Never, 1));
    assert_eq!(
        g.reconstruct_from_node_until(0, &d, &lhs, Stop::Never, 0).err(),
        Some(StructureError::TooDeep(0))
    );
}

#[test]
fn a_second_exit_from_a_loop_repeats_the_block_after_it() {
    let src = "label L\npush local 0\nif-goto END\npush local 1\nif-goto END\npush constant 1\n\
               pop local 2\ngoto L\nlabel END\npush constant 9\npop local 3\n";
    let g = Graph::lift(&build(src)).unwrap();
    let stmts = g.reconstruct_code();
    assert_eq!(stmts.len(), 1);
    assert_eq!(
        stmts[0].to_text(),
        "while (LCL_0) {\nif (LCL_1) {\nlet LCL_3 = 9;\n} else {\nlet LCL_2 = 1;\n}\n\n}\nlet LCL_3 = 9;\n"
    );
}

#[test]
fn a_block_that_cannot_be_lifted_is_named() {
    let g = build("push constant 1\ngoto A\nlabel A\nadd\n");
    let e = Graph::lift(&g).err();
    assert_eq!(e, Some(BlockLiftError { block: 1, fault: LiftError::StackUnderflow(0) }));
    let f = VmFunction { name: None, locals: 0, commands: parse_program("add").unwrap() };
    assert_eq!(
        decompile_function(f).err(),
        Some(DecompileError::Lift(BlockLiftError { block: 0, fault: LiftError::StackUnderflow(0) }))
    );
}

#[test]
fn a_stream_is_cut_at_its_headers() {
    let src = "push constant 1\nfunction a 0\nfunction b 2\npush constant 2\nreturn\nfunction c 1\n";
    let fs = split_functions(parse_program(src).unwrap());
    assert_eq!(fs.len(), 2);
    assert_eq!(fs[0].name, None);
    assert_eq!(fs[0].locals, 0);
    assert_eq!(fs[0].commands.len(), 1);
    assert_eq!(fs[1].name.as_deref(), Some("b"));
    assert_eq!(fs[1].locals, 2);
    assert_eq!(fs[1].commands.len(), 2);
    assert!(split_functions(vec![]).is_empty());
}

#[test]
fn the_first_function_that_fails_is_named() {
    let src = "function a 0\npush constant 1\nreturn\nfunction b 0\nadd\n";
    let r = to_untyped_ir(parse_program(src).unwrap());
    assert_eq!(
        r.err(),
        Some(FunctionError {
            function: 1,
            fault: DecompileError::Lift(BlockLiftError {
                block: 0,
                fault: LiftError::StackUnderflow(0)
            })
        })
    );
}

#[test]
fn the_drawing_of_a_small_graph() {
    let g = build("push constant 1\nif-goto A\nneg\nlabel A\n");
    let text = g.write_graphviz();
    let expected = "digraph G {\n\
        0 [shape=box,label=\"\\n0\\nlabel=\\ndoms{ 0}\\nidom=0\\npush CONST 1\"];\n\
        0->1[label=\"if-goto\"];\n\
        0->2[label=\"\"];\n\
        1 [shape=box,label=\"\\n1\\nlabel=A\\ndoms{ 0 1}\\nidom=0\\n\"];\n\
        2 [shape=box,label=\"\\n2\\nlabel=\\ndoms{ 0 2}\\nidom=0\\nNeg\"];\n\
        2->1[label=\"\"];\n\
        }\n";
    assert_eq!(text, expected);
}

#[test]
fn the_drawing_marks_loop_headers_and_shows_lifted_commands() {
    let g = Graph::lift(&build(LOOP)).unwrap();
    let text = g.write_graphviz();
    assert!(text.starts_with("digraph G {\n0 [shape=box,label=\"header\\n0\\nlabel=L\\ndoms{ 0}"));
    assert!(text.contains("\\nidom=0\\nlet LCL_0 = 1 + LCL_0;\"];\n2->0[label=\"goto\"];\n"));
    assert!(!text.contains("\n3 [shape"));
    assert!(text.ends_with("}\n"));
}

#[test]
fn the_immediate_dominator_is_dominated_by_every_other_strict_dominator() {
    let src = "push local 0\nif-goto A\npush constant 1\npop local 1\nlabel A\n\
               push local 1\nif-goto B\npush constant 2\npop local 2\nlabel B\npush constant 3\nreturn\n";
    let g = build(src);
    let d = g.dominate_nodes();
    let idom = g.idom_nodes(&d);
    assert_eq!(idom, vec![0, 0, 0, 1, 1]);
    for n in 1..g.len() {
        let r = idom[n];
        assert!(r != n && d[n][r] == 1);
        let mut closest = 0;
        for t in 0..g.len() {
            if t != n && d[n][t] == 1 {
                assert_eq!(d[r][t], 1);
                if (0..g.len()).all(|u| u == n || d[n][u] == 0 || d[t][u] == 1) {
                    closest += 1;
                }
            }
        }
        assert_eq!(closest, 1);
    }
}

#[test]
fn every_block_of_the_diamond_stands_once_in_the_result() {
    let g = Graph::lift(&build(DIAMOND)).unwrap();
    let stmts = g.try_reconstruct_code().unwrap();
    let mut text = String::new();
    for s in &stmts {
        text.push_str(&s.to_text());
    }
    assert_eq!(
        text,
        "if (LCL_0) {\nlet LCL_1 = 2;\n} else {\nlet LCL_1 = 1;\n}\nreturn(LCL_1);\n"
    );
    assert_eq!(text.matches("let LCL_1 = 1;").count(), 1);
    assert_eq!(text.matches("let LCL_1 = 2;").count(), 1);
    assert_eq!(text.matches("return(LCL_1);").count(), 1);
}

#[test]
fn a_function_that_cannot_be_folded_says_why() {
    let src = "label L\npush local 0\nif-goto END\npush local 1\nif-goto SKIP\n\
               push constant 5\npop local 2\nlabel SKIP\ngoto L\nlabel END\n";
    let f = VmFunction { name: Some("f".to_string()), locals: 3, commands: parse_program(src).unwrap() };
    assert_eq!(
        decompile_function(f).err(),
        Some(DecompileError::Structure(StructureError::Diverge(0, 3)))
    );
}
