use deadfish::{encode_to_0, BfsEncoder, Builder, Inst, Ir, Offset, Value};

fn insts(src: &[u8]) -> Vec<Inst> {
    Inst::parse(src)
}

#[test]
fn decompose_256() {
    let composed = "Ātra beigto zivju kodēšana";
    let decomposed = "A\u{0304}tra beigto zivju kodēšana";
    let mut b = Builder::new(Value::new());
    b.push_string(composed);
    assert_eq!(Inst::eval_string(b.insts()).unwrap(), decomposed);
}

#[test]
fn sqrts_of_256() {
    let sqrts_of_256 = [
        16u32, 134217712, 134217744, 268435440, 268435472, 402653168, 402653200, 536870896,
        536870928, 671088624, 671088656, 805306352, 805306384, 939524080, 939524112, 1073741808,
        1073741840, 1207959536, 1207959568, 1342177264, 1342177296, 1476394992, 1476395024,
        1610612720, 1610612752, 1744830448, 1744830480, 1879048176, 1879048208, 2013265904,
        2013265936, 2147483632, 2147483664, 2281701360, 2281701392, 2415919088, 2415919120,
        2550136816, 2550136848, 2684354544, 2684354576, 2818572272, 2818572304, 2952790000,
        2952790032, 3087007728, 3087007760, 3221225456, 3221225488, 3355443184, 3355443216,
        3489660912, 3489660944, 3623878640, 3623878672, 3758096368, 3758096400, 3892314096,
        3892314128, 4026531824, 4026531856, 4160749552, 4160749584, 4294967280,
    ];
    for n in sqrts_of_256 {
        assert_eq!(encode_to_0(Value::from(n)), (Offset(0), 1));
    }
}

#[test]
fn eval() {
    // Example programs from https://esolangs.org/wiki/Deadfish#Example_programs
    assert_eq!(
        (vec![Ir::Prompts(6), Ir::Number(0.into())], Value::from(0)),
        Ir::eval(&insts(b"iissso"))
    );
    assert_eq!(
        (
            vec![Ir::Prompts(9), Ir::Number(288.into())],
            Value::from(288)
        ),
        Ir::eval(&insts(b"diissisdo"))
    );
    assert_eq!(
        (vec![Ir::Prompts(40), Ir::Number(0.into())], Value::from(0)),
        Ir::eval(&insts(b"iissisdddddddddddddddddddddddddddddddddo"))
    );
}

#[test]
fn hello_world() {
    // "Hello world" from https://esolangs.org/wiki/Deadfish#Example_programs
    let program = insts(b"iisiiiisiiiiiiiioiiiiiiiiiiiiiiiiiiiiiiiiiiiiioiiiiiiiooiiio_dddddddddddddddddddddddddddddddddddddddddddddddddddddddddddddddddddddddddddddddo_dddddddddddddddddddddsddoddddddddoiiioddddddoddddddddo_");
    // Known to be optimal by BFS
    let minimized = insts(b"iiisdsiiiiiiiiossssiiisisioiiiiiiiooiiioisssiisiisddddosssiiisiisddoddddddddoiiioddddddoddddddddo");
    let ir = vec![Ir::Prompts(17), Ir::Number(72.into()), Ir::Prompts(30), Ir::Number(101.into()), Ir::Prompts(8), Ir::Number(108.into()), Ir::Prompts(1), Ir::Number(108.into()), Ir::Prompts(4), Ir::Number(111.into()), Ir::Blanks(1), Ir::Prompts(80), Ir::Number(32.into()), Ir::Blanks(1), Ir::Prompts(25), Ir::Number(119.into()), Ir::Prompts(9), Ir::Number(111.into()), Ir::Prompts(4), Ir::Number(114.into()), Ir::Prompts(7), Ir::Number(108.into()), Ir::Prompts(9), Ir::Number(100.into()), Ir::Blanks(1),];
    let shell = ">> >> >> >> >> >> >> >> >> >> >> >> >> >> >> >> >> 72\n>> >> >> >> >> >> >> >> >> >> >> >> >> >> >> >> >> >> >> >> >> >> >> >> >> >> >> >> >> >> 101\n>> >> >> >> >> >> >> >> 108\n>> 108\n>> >> >> >> 111\n>> \n>> >> >> >> >> >> >> >> >> >> >> >> >> >> >> >> >> >> >> >> >> >> >> >> >> >> >> >> >> >> >> >> >> >> >> >> >> >> >> >> >> >> >> >> >> >> >> >> >> >> >> >> >> >> >> >> >> >> >> >> >> >> >> >> >> >> >> >> >> >> >> >> >> >> >> >> >> >> >> >> 32\n>> \n>> >> >> >> >> >> >> >> >> >> >> >> >> >> >> >> >> >> >> >> >> >> >> >> >> 119\n>> >> >> >> >> >> >> >> >> 111\n>> >> >> >> 114\n>> >> >> >> >> >> >> 108\n>> >> >> >> >> >> >> >> >> 100\n>> \n";

    assert_eq!((ir, Value::from(100)), Ir::eval(&program));

    assert_eq!(minimized, Inst::minimize(&program));

    assert_eq!(shell, Inst::interpret(&program));
}

#[test]
fn compare_heuristic() {
    compare_encode(&mut |from, to| Some(Inst::encode_number(from, to)))
}

#[test]
fn compare_bfs() {
    let mut enc = BfsEncoder::with_bound(16);
    compare_encode(&mut move |from, to| {
        let (path, optimal) = enc.encode(from, to);
        if !optimal {
            println!("{:?} -> {:?} may not be optimal with {:?}", from, to, path);
        }
        path
    });
}

fn case(
    f: &mut dyn FnMut(Value, Value) -> Option<Vec<Inst>>,
    from: i32,
    to: i32,
    known_paths: &[Vec<Inst>],
    pass: &mut bool,
) {
    let from = Value::from(from);
    let to = Value::from(to);
    match f(from, to) {
        Some(path) => {
            for p in known_paths {
                assert_eq!(to, Inst::eval(p, from), "Inst::eval({:?}, {:?})", p, from);
            }
            if known_paths.iter().find(|&p| &path == p).is_none() {
                println!("{:?} -> {:?} path {:?} not in {:?}", from, to, path, known_paths);
                *pass = false;
            }
        }
        None => println!("Unable to encode {:?} -> {:?}", from, to),
    }
}

fn compare_encode(f: &mut dyn FnMut(Value, Value) -> Option<Vec<Inst>>) {
    let mut pass = true;

    case(f, 0, 0, &[insts(b"o")], &mut pass);
    case(f, 0, 1, &[insts(b"io")], &mut pass);
    case(f, 0, 2, &[insts(b"iio")], &mut pass);
    case(f, 0, 3, &[insts(b"iiio")], &mut pass);
    case(f, 0, 4, &[insts(b"iiso")], &mut pass);
    case(f, 0, 5, &[insts(b"iisio")], &mut pass);
    case(f, 0, 6, &[insts(b"iisiio")], &mut pass);
    case(f, 0, 7, &[insts(b"iiisddo"), insts(b"iisiiio")], &mut pass);
    case(f, 0, 8, &[insts(b"iiisdo")], &mut pass);
    case(f, 0, 9, &[insts(b"iiiso")], &mut pass);
    case(f, 0, 10, &[insts(b"iiisio")], &mut pass);
    case(f, 0, 11, &[insts(b"iiisiio")], &mut pass);
    case(f, 0, 12, &[insts(b"iiisiiio")], &mut pass);
    case(f, 0, 13, &[insts(b"iissdddo")], &mut pass);
    case(f, 0, 14, &[insts(b"iissddo")], &mut pass);
    case(f, 0, 15, &[insts(b"iissdo")], &mut pass);
    case(f, 0, 16, &[insts(b"iisso")], &mut pass);
    case(f, 0, 17, &[insts(b"iissio")], &mut pass);
    case(f, 0, 18, &[insts(b"iissiio")], &mut pass);
    case(f, 0, 19, &[insts(b"iissiiio")], &mut pass);
    case(f, 0, 20, &[insts(b"iissiiiio")], &mut pass);
    case(f, 0, 21, &[insts(b"iisisddddo"), insts(b"iissiiiiio")], &mut pass);
    case(f, 0, 22, &[insts(b"iisisdddo")], &mut pass);
    case(f, 0, 23, &[insts(b"iisisddo")], &mut pass);
    case(f, 0, 24, &[insts(b"iisisdo")], &mut pass);
    case(f, 0, 25, &[insts(b"iisiso")], &mut pass);
    case(f, 0, 26, &[insts(b"iisisio")], &mut pass);
    case(f, 0, 27, &[insts(b"iisisiio")], &mut pass);
    case(f, 0, 28, &[insts(b"iisisiiio")], &mut pass);
    case(f, 0, 29, &[insts(b"iisisiiiio")], &mut pass);
    case(f, 0, 30, &[insts(b"iisisiiiiio")], &mut pass);
    case(f, 0, 31, &[insts(b"iisiisdddddo"), insts(b"iisisiiiiiio")], &mut pass);
    case(f, 0, 32, &[insts(b"iisiisddddo")], &mut pass);
    case(f, 0, 33, &[insts(b"iisiisdddo")], &mut pass);
    case(f, 0, 34, &[insts(b"iisiisddo")], &mut pass);
    case(f, 0, 35, &[insts(b"iisiisdo")], &mut pass);
    case(f, 0, 36, &[insts(b"iisiiso")], &mut pass);
    case(f, 0, 37, &[insts(b"iisiisio")], &mut pass);
    case(f, 0, 38, &[insts(b"iisiisiio")], &mut pass);
    case(f, 0, 39, &[insts(b"iisiisiiio")], &mut pass);
    case(f, 0, 40, &[insts(b"iisiisiiiio")], &mut pass);
    case(f, 0, 41, &[insts(b"iisiisiiiiio")], &mut pass);
    case(f, 0, 42, &[insts(b"iisiisiiiiiio")], &mut pass);
    case(f, 0, 43, &[insts(b"iiisddsddddddo"), insts(b"iisiisiiiiiiio")], &mut pass);
    case(f, 0, 44, &[insts(b"iiisddsdddddo"), insts(b"iisiiisdddddo")], &mut pass);
    case(f, 0, 45, &[insts(b"iiisddsddddo"), insts(b"iisiiisddddo")], &mut pass);
    case(f, 0, 46, &[insts(b"iiisddsdddo"), insts(b"iisiiisdddo")], &mut pass);
    case(f, 0, 47, &[insts(b"iiisddsddo"), insts(b"iisiiisddo")], &mut pass);
    case(f, 0, 48, &[insts(b"iiisddsdo"), insts(b"iisiiisdo")], &mut pass);
    case(f, 0, 49, &[insts(b"iiisddso"), insts(b"iisiiiso")], &mut pass);
    case(f, 0, 50, &[insts(b"iiisddsio"), insts(b"iisiiisio")], &mut pass);
    case(f, 0, 51, &[insts(b"iiisddsiio"), insts(b"iisiiisiio")], &mut pass);
    case(f, 0, 52, &[insts(b"iiisddsiiio"), insts(b"iisiiisiiio")], &mut pass);
    case(f, 0, 53, &[insts(b"iiisddsiiiio"), insts(b"iisiiisiiiio")], &mut pass);
    case(f, 0, 54, &[insts(b"iiisddsiiiiio"), insts(b"iisiiisiiiiio")], &mut pass);
    case(f, 0, 55, &[insts(b"iiisddsiiiiiio"), insts(b"iisiiisiiiiiio")], &mut pass);
    case(f, 0, 56, &[insts(b"iiisddsiiiiiiio"), insts(b"iisiiisiiiiiiio")], &mut pass);
    case(f, 0, 57, &[insts(b"iiisdsdddddddo")], &mut pass);
    case(f, 0, 58, &[insts(b"iiisdsddddddo")], &mut pass);
    case(f, 0, 59, &[insts(b"iiisdsdddddo")], &mut pass);
    case(f, 0, 60, &[insts(b"iiisdsddddo")], &mut pass);
    case(f, 0, 61, &[insts(b"iiisdsdddo")], &mut pass);
    case(f, 0, 62, &[insts(b"iiisdsddo")], &mut pass);
    case(f, 0, 63, &[insts(b"iiisdsdo")], &mut pass);
    case(f, 0, 64, &[insts(b"iiisdso")], &mut pass);
    case(f, 0, 65, &[insts(b"iiisdsio")], &mut pass);
    case(f, 0, 66, &[insts(b"iiisdsiio")], &mut pass);
    case(f, 0, 67, &[insts(b"iiisdsiiio")], &mut pass);
    case(f, 0, 68, &[insts(b"iiisdsiiiio")], &mut pass);
    case(f, 0, 69, &[insts(b"iiisdsiiiiio")], &mut pass);
    case(f, 0, 70, &[insts(b"iiisdsiiiiiio")], &mut pass);
    case(f, 0, 71, &[insts(b"iiisdsiiiiiiio")], &mut pass);
    case(f, 0, 72, &[insts(b"iiisdsiiiiiiiio"), insts(b"iiissdddddddddo")], &mut pass);
    case(f, 0, 73, &[insts(b"iiissddddddddo")], &mut pass);
    case(f, 0, 74, &[insts(b"iiissdddddddo")], &mut pass);
    case(f, 0, 75, &[insts(b"iiissddddddo")], &mut pass);
    case(f, 0, 76, &[insts(b"iiissdddddo")], &mut pass);
    case(f, 0, 77, &[insts(b"iiissddddo")], &mut pass);
    case(f, 0, 78, &[insts(b"iiissdddo")], &mut pass);
    case(f, 0, 79, &[insts(b"iiissddo")], &mut pass);
    case(f, 0, 80, &[insts(b"iiissdo")], &mut pass);
    case(f, 0, 81, &[insts(b"iiisso")], &mut pass);
    case(f, 0, 82, &[insts(b"iiissio")], &mut pass);
    case(f, 0, 83, &[insts(b"iiissiio")], &mut pass);
    case(f, 0, 84, &[insts(b"iiissiiio")], &mut pass);
    case(f, 0, 85, &[insts(b"iiissiiiio")], &mut pass);
    case(f, 0, 86, &[insts(b"iiissiiiiio")], &mut pass);
    case(f, 0, 87, &[insts(b"iiissiiiiiio")], &mut pass);
    case(f, 0, 88, &[insts(b"iiissiiiiiiio")], &mut pass);
    case(f, 0, 89, &[insts(b"iiissiiiiiiiio")], &mut pass);
    case(f, 0, 90, &[insts(b"iiissiiiiiiiiio")], &mut pass);
    case(f, 0, 91, &[insts(b"iiisisdddddddddo"), insts(b"iiissiiiiiiiiiio")], &mut pass);
    case(f, 0, 92, &[insts(b"iiisisddddddddo")], &mut pass);
    case(f, 0, 93, &[insts(b"iiisisdddddddo")], &mut pass);
    case(f, 0, 94, &[insts(b"iiisisddddddo")], &mut pass);
    case(f, 0, 95, &[insts(b"iiisisdddddo")], &mut pass);
    case(f, 0, 96, &[insts(b"iiisisddddo")], &mut pass);
    case(f, 0, 97, &[insts(b"iiisisdddo")], &mut pass);
    case(f, 0, 98, &[insts(b"iiisisddo")], &mut pass);
    case(f, 0, 99, &[insts(b"iiisisdo")], &mut pass);
    case(f, 0, 100, &[insts(b"iiisiso")], &mut pass);
    case(f, 0, 101, &[insts(b"iiisisio")], &mut pass);
    case(f, 0, 102, &[insts(b"iiisisiio")], &mut pass);
    case(f, 0, 103, &[insts(b"iiisisiiio")], &mut pass);
    case(f, 0, 104, &[insts(b"iiisisiiiio")], &mut pass);
    case(f, 0, 105, &[insts(b"iiisisiiiiio")], &mut pass);
    case(f, 0, 106, &[insts(b"iiisisiiiiiio")], &mut pass);
    case(f, 0, 107, &[insts(b"iiisisiiiiiiio")], &mut pass);
    case(f, 0, 108, &[insts(b"iiisisiiiiiiiio")], &mut pass);
    case(f, 0, 109, &[insts(b"iiisisiiiiiiiiio")], &mut pass);
    case(f, 0, 110, &[insts(b"iiisisiiiiiiiiiio")], &mut pass);
    case(f, 0, 111, &[insts(b"iiisiisddddddddddo"), insts(b"iiisisiiiiiiiiiiio")], &mut pass);
    case(f, 0, 112, &[insts(b"iiisiisdddddddddo")], &mut pass);
    case(f, 0, 113, &[insts(b"iiisiisddddddddo")], &mut pass);
    case(f, 0, 114, &[insts(b"iiisiisdddddddo")], &mut pass);
    case(f, 0, 115, &[insts(b"iiisiisddddddo")], &mut pass);
    case(f, 0, 116, &[insts(b"iiisiisdddddo")], &mut pass);
    case(f, 0, 117, &[insts(b"iiisiisddddo")], &mut pass);
    case(f, 0, 118, &[insts(b"iiisiisdddo")], &mut pass);
    case(f, 0, 119, &[insts(b"iiisiisddo")], &mut pass);
    case(f, 0, 120, &[insts(b"iiisiisdo")], &mut pass);
    case(f, 0, 121, &[insts(b"iiisiiso")], &mut pass);
    case(f, 0, 122, &[insts(b"iiisiisio")], &mut pass);
    case(f, 0, 123, &[insts(b"iiisiisiio")], &mut pass);
    case(f, 0, 124, &[insts(b"iiisiisiiio")], &mut pass);
    case(f, 0, 125, &[insts(b"iiisiisiiiio")], &mut pass);
    case(f, 0, 126, &[insts(b"iiisiisiiiiio")], &mut pass);
    case(f, 0, 127, &[insts(b"iiisiisiiiiiio")], &mut pass);
    case(f, 0, 128, &[insts(b"iiisiisiiiiiiio")], &mut pass);
    case(f, 0, 129, &[insts(b"iiisiisiiiiiiiio")], &mut pass);
    case(f, 0, 130, &[insts(b"iiisiisiiiiiiiiio")], &mut pass);
    case(f, 0, 131, &[insts(b"iiisiisiiiiiiiiiio")], &mut pass);
    case(f, 0, 132, &[insts(b"iiisiisiiiiiiiiiiio")], &mut pass);
    case(f, 0, 133, &[insts(b"iiisiiisdddddddddddo"), insts(b"iiisiisiiiiiiiiiiiio")], &mut pass);
    case(f, 0, 134, &[insts(b"iiisiiisddddddddddo")], &mut pass);
    case(f, 0, 135, &[insts(b"iiisiiisdddddddddo")], &mut pass);
    case(f, 0, 136, &[insts(b"iiisiiisddddddddo")], &mut pass);
    case(f, 0, 137, &[insts(b"iiisiiisdddddddo")], &mut pass);
    case(f, 0, 138, &[insts(b"iiisiiisddddddo")], &mut pass);
    case(f, 0, 139, &[insts(b"iiisiiisdddddo")], &mut pass);
    case(f, 0, 140, &[insts(b"iiisiiisddddo")], &mut pass);
    case(f, 0, 141, &[insts(b"iiisiiisdddo")], &mut pass);
    case(f, 0, 142, &[insts(b"iiisiiisddo")], &mut pass);
    case(f, 0, 143, &[insts(b"iiisiiisdo")], &mut pass);
    case(f, 0, 144, &[insts(b"iiisiiiso")], &mut pass);
    case(f, 0, 145, &[insts(b"iiisiiisio")], &mut pass);
    case(f, 0, 146, &[insts(b"iiisiiisiio")], &mut pass);
    case(f, 0, 147, &[insts(b"iiisiiisiiio")], &mut pass);
    case(f, 0, 148, &[insts(b"iiisiiisiiiio")], &mut pass);
    case(f, 0, 149, &[insts(b"iiisiiisiiiiio")], &mut pass);
    case(f, 0, 150, &[insts(b"iiisiiisiiiiiio")], &mut pass);
    case(f, 0, 151, &[insts(b"iiisiiisiiiiiiio")], &mut pass);
    case(f, 0, 152, &[insts(b"iiisiiisiiiiiiiio")], &mut pass);
    case(f, 0, 153, &[insts(b"iiisiiisiiiiiiiiio")], &mut pass);
    case(f, 0, 154, &[insts(b"iiisiiisiiiiiiiiiio")], &mut pass);
    case(f, 0, 155, &[insts(b"iiisiiisiiiiiiiiiiio")], &mut pass);
    case(f, 0, 156, &[insts(b"iiisiiisiiiiiiiiiiiio")], &mut pass);
    case(f, 0, 157, &[insts(b"iissdddsddddddddddddo")], &mut pass);
    case(f, 0, 158, &[insts(b"iissdddsdddddddddddo")], &mut pass);
    case(f, 0, 159, &[insts(b"iissdddsddddddddddo")], &mut pass);
    case(f, 0, 160, &[insts(b"iissdddsdddddddddo")], &mut pass);
    case(f, 0, 161, &[insts(b"iissdddsddddddddo")], &mut pass);
    case(f, 0, 162, &[insts(b"iissdddsdddddddo")], &mut pass);
    case(f, 0, 163, &[insts(b"iissdddsddddddo")], &mut pass);
    case(f, 0, 164, &[insts(b"iissdddsdddddo")], &mut pass);
    case(f, 0, 165, &[insts(b"iissdddsddddo")], &mut pass);
    case(f, 0, 166, &[insts(b"iissdddsdddo")], &mut pass);
    case(f, 0, 167, &[insts(b"iissdddsddo")], &mut pass);
    case(f, 0, 168, &[insts(b"iissdddsdo")], &mut pass);
    case(f, 0, 169, &[insts(b"iissdddso")], &mut pass);
    case(f, 0, 170, &[insts(b"iissdddsio")], &mut pass);
    case(f, 0, 171, &[insts(b"iissdddsiio")], &mut pass);
    case(f, 0, 172, &[insts(b"iissdddsiiio")], &mut pass);
    case(f, 0, 173, &[insts(b"iissdddsiiiio")], &mut pass);
    case(f, 0, 174, &[insts(b"iissdddsiiiiio")], &mut pass);
    case(f, 0, 175, &[insts(b"iissdddsiiiiiio")], &mut pass);
    case(f, 0, 176, &[insts(b"iissdddsiiiiiiio")], &mut pass);
    case(f, 0, 177, &[insts(b"iissdddsiiiiiiiio")], &mut pass);
    case(f, 0, 178, &[insts(b"iissdddsiiiiiiiiio")], &mut pass);
    case(f, 0, 179, &[insts(b"iissdddsiiiiiiiiiio")], &mut pass);
    case(f, 0, 180, &[insts(b"iissdddsiiiiiiiiiiio")], &mut pass);
    case(f, 0, 181, &[insts(b"iissdddsiiiiiiiiiiiio")], &mut pass);
    case(f, 0, 182, &[insts(b"iissdddsiiiiiiiiiiiiio"), insts(b"iissddsddddddddddddddo")], &mut pass);
    case(f, 0, 183, &[insts(b"iissddsdddddddddddddo")], &mut pass);
    case(f, 0, 184, &[insts(b"iissddsddddddddddddo")], &mut pass);
    case(f, 0, 185, &[insts(b"iissddsdddddddddddo")], &mut pass);
    case(f, 0, 186, &[insts(b"iissddsddddddddddo")], &mut pass);
    case(f, 0, 187, &[insts(b"iissddsdddddddddo")], &mut pass);
    case(f, 0, 188, &[insts(b"iissddsddddddddo")], &mut pass);
    case(f, 0, 189, &[insts(b"iissddsdddddddo")], &mut pass);
    case(f, 0, 190, &[insts(b"iissddsddddddo")], &mut pass);
    case(f, 0, 191, &[insts(b"iissddsdddddo")], &mut pass);
    case(f, 0, 192, &[insts(b"iissddsddddo")], &mut pass);
    case(f, 0, 193, &[insts(b"iissddsdddo")], &mut pass);
    case(f, 0, 194, &[insts(b"iissddsddo")], &mut pass);
    case(f, 0, 195, &[insts(b"iissddsdo")], &mut pass);
    case(f, 0, 196, &[insts(b"iissddso")], &mut pass);
    case(f, 0, 197, &[insts(b"iissddsio")], &mut pass);
    case(f, 0, 198, &[insts(b"iissddsiio")], &mut pass);
    case(f, 0, 199, &[insts(b"iissddsiiio")], &mut pass);
    case(f, 0, 200, &[insts(b"iissddsiiiio")], &mut pass);
    case(f, 0, 201, &[insts(b"iissddsiiiiio")], &mut pass);
    case(f, 0, 202, &[insts(b"iissddsiiiiiio")], &mut pass);
    case(f, 0, 203, &[insts(b"iissddsiiiiiiio")], &mut pass);
    case(f, 0, 204, &[insts(b"iissddsiiiiiiiio")], &mut pass);
    case(f, 0, 205, &[insts(b"iissddsiiiiiiiiio")], &mut pass);
    case(f, 0, 206, &[insts(b"iissddsiiiiiiiiiio")], &mut pass);
    case(f, 0, 207, &[insts(b"iissddsiiiiiiiiiiio")], &mut pass);
    case(f, 0, 208, &[insts(b"iissddsiiiiiiiiiiiio")], &mut pass);
    case(f, 0, 209, &[insts(b"iissddsiiiiiiiiiiiiio")], &mut pass);
    case(f, 0, 210, &[insts(b"iissddsiiiiiiiiiiiiiio"), insts(b"iissdsdddddddddddddddo")], &mut pass);
    case(f, 0, 211, &[insts(b"iissdsddddddddddddddo")], &mut pass);
    case(f, 0, 212, &[insts(b"iissdsdddddddddddddo")], &mut pass);
    case(f, 0, 213, &[insts(b"iissdsddddddddddddo")], &mut pass);
    case(f, 0, 214, &[insts(b"iissdsdddddddddddo")], &mut pass);
    case(f, 0, 215, &[insts(b"iissdsddddddddddo")], &mut pass);
    case(f, 0, 216, &[insts(b"iissdsdddddddddo")], &mut pass);
    case(f, 0, 217, &[insts(b"iissdsddddddddo")], &mut pass);
    case(f, 0, 218, &[insts(b"iissdsdddddddo")], &mut pass);
    case(f, 0, 219, &[insts(b"iissdsddddddo")], &mut pass);
    case(f, 0, 220, &[insts(b"iissdsdddddo")], &mut pass);
    case(f, 0, 221, &[insts(b"iissdsddddo")], &mut pass);
    case(f, 0, 222, &[insts(b"iissdsdddo")], &mut pass);
    case(f, 0, 223, &[insts(b"iissdsddo")], &mut pass);
    case(f, 0, 224, &[insts(b"iissdsdo")], &mut pass);
    case(f, 0, 225, &[insts(b"iissdso")], &mut pass);
    case(f, 0, 226, &[insts(b"iissdsio")], &mut pass);
    case(f, 0, 227, &[insts(b"iissdsiio")], &mut pass);
    case(f, 0, 228, &[insts(b"iissdsiiio")], &mut pass);
    case(f, 0, 229, &[insts(b"iissdsiiiio")], &mut pass);
    case(f, 0, 230, &[insts(b"iissdsiiiiio")], &mut pass);
    case(f, 0, 231, &[insts(b"iissdsiiiiiio")], &mut pass);
    case(f, 0, 232, &[insts(b"iissdsiiiiiiio")], &mut pass);
    case(f, 0, 233, &[insts(b"iissdsiiiiiiiio")], &mut pass);
    case(f, 0, 234, &[insts(b"iissdsiiiiiiiiio")], &mut pass);
    case(f, 0, 235, &[insts(b"iissdsiiiiiiiiiio")], &mut pass);
    case(f, 0, 236, &[insts(b"iissdsiiiiiiiiiiio")], &mut pass);
    case(f, 0, 237, &[insts(b"iissdsiiiiiiiiiiiio")], &mut pass);
    case(f, 0, 238, &[insts(b"iissdsiiiiiiiiiiiiio")], &mut pass);
    case(f, 0, 239, &[insts(b"iissdsiiiiiiiiiiiiiio")], &mut pass);
    case(f, 0, 240, &[insts(b"iissdsiiiiiiiiiiiiiiio")], &mut pass);
    case(f, 0, 241, &[insts(b"iissdsiiiiiiiiiiiiiiiio")], &mut pass);
    case(f, 0, 242, &[insts(b"iissdsiiiiiiiiiiiiiiiiio")], &mut pass);
    case(f, 0, 243, &[insts(b"iissdsiiiiiiiiiiiiiiiiiio")], &mut pass);
    case(f, 0, 244, &[insts(b"iissdsiiiiiiiiiiiiiiiiiiio")], &mut pass);
    case(f, 0, 245, &[insts(b"iissdsiiiiiiiiiiiiiiiiiiiio")], &mut pass);
    case(f, 0, 246, &[insts(b"iissdsiiiiiiiiiiiiiiiiiiiiio")], &mut pass);
    case(f, 0, 247, &[insts(b"iissdsiiiiiiiiiiiiiiiiiiiiiio")], &mut pass);
    case(f, 0, 248, &[insts(b"iissdsiiiiiiiiiiiiiiiiiiiiiiio")], &mut pass);
    case(f, 0, 249, &[insts(b"iissdsiiiiiiiiiiiiiiiiiiiiiiiio")], &mut pass);
    case(f, 0, 250, &[insts(b"iissdsiiiiiiiiiiiiiiiiiiiiiiiiio")], &mut pass);
    case(f, 0, 251, &[insts(b"iissdsiiiiiiiiiiiiiiiiiiiiiiiiiio")], &mut pass);
    case(f, 0, 252, &[insts(b"iissdsiiiiiiiiiiiiiiiiiiiiiiiiiiio")], &mut pass);
    case(f, 0, 253, &[insts(b"iissdsiiiiiiiiiiiiiiiiiiiiiiiiiiiio")], &mut pass);
    case(f, 0, 254, &[insts(b"iissdsiiiiiiiiiiiiiiiiiiiiiiiiiiiiio")], &mut pass);
    case(f, 0, 255, &[insts(b"iissdsiiiiiiiiiiiiiiiiiiiiiiiiiiiiiio")], &mut pass);
    case(f, 0, 256, &[insts(b"o")], &mut pass);
    case(f, 0, 257, &[insts(b"iissisddddddddddddddddddddddddddddddddo")], &mut pass);
    case(f, 0, -1, &[insts(b"o")], &mut pass);
    case(f, -1, 0, &[insts(b"o")], &mut pass);
    case(f, -2, 0, &[insts(b"io")], &mut pass);
    case(f, -3, 0, &[insts(b"iio")], &mut pass);
    case(f, -4, 0, &[insts(b"sso")], &mut pass);
    case(f, -5, 0, &[insts(b"isso")], &mut pass);
    case(f, -6, 0, &[insts(b"iisso")], &mut pass);
    case(f, -7, 0, &[insts(b"iiisso")], &mut pass);
    case(f, -8, 0, &[insts(b"sssso")], &mut pass);
    case(f, -9, 0, &[insts(b"isssso")], &mut pass);
    case(f, -10, 0, &[insts(b"ssssso")], &mut pass);
    case(f, -11, 0, &[insts(b"dsssso")], &mut pass);
    case(f, -12, 0, &[insts(b"sssso")], &mut pass);
    case(f, -13, 0, &[insts(b"dddso")], &mut pass);
    case(f, -14, 0, &[insts(b"ddso")], &mut pass);
    case(f, -15, 0, &[insts(b"dso")], &mut pass);
    case(f, -16, 0, &[insts(b"so")], &mut pass);
    case(f, -17, 0, &[insts(b"iso")], &mut pass);
    case(f, -18, 0, &[insts(b"iiso")], &mut pass);
    case(f, -19, 0, &[insts(b"iiiso")], &mut pass);
    case(f, -20, 0, &[insts(b"sssso")], &mut pass);
    case(f, -21, 0, &[insts(b"isssso")], &mut pass);
    case(f, -22, 0, &[insts(b"ssssso")], &mut pass);
    case(f, -23, 0, &[insts(b"dsssso")], &mut pass);
    case(f, -24, 0, &[insts(b"sssso")], &mut pass);
    case(f, -25, 0, &[insts(b"isssso")], &mut pass);
    case(f, -26, 0, &[insts(b"ssssso")], &mut pass);
    case(f, -27, 0, &[insts(b"dsssso")], &mut pass);
    case(f, -28, 0, &[insts(b"sssso")], &mut pass);
    case(f, -29, 0, &[insts(b"isssso")], &mut pass);
    case(f, -30, 0, &[insts(b"ddssso")], &mut pass);
    case(f, -31, 0, &[insts(b"dssso")], &mut pass);
    case(f, -32, 0, &[insts(b"ssso")], &mut pass);
    case(f, -33, 0, &[insts(b"issso")], &mut pass);
    case(f, -34, 0, &[insts(b"iissso")], &mut pass);
    case(f, -35, 0, &[insts(b"dsssso")], &mut pass);
    case(f, -36, 0, &[insts(b"sssso")], &mut pass);
    case(f, -37, 0, &[insts(b"isssso")], &mut pass);
    case(f, -38, 0, &[insts(b"ssssso")], &mut pass);
    case(f, -39, 0, &[insts(b"dsssso")], &mut pass);
    case(f, -40, 0, &[insts(b"sssso")], &mut pass);
    case(f, -41, 0, &[insts(b"isssso")], &mut pass);
    case(f, -42, 0, &[insts(b"ssssso")], &mut pass);
    case(f, -43, 0, &[insts(b"dsssso")], &mut pass);
    case(f, -44, 0, &[insts(b"sssso")], &mut pass);
    case(f, -45, 0, &[insts(b"isssso")], &mut pass);
    case(f, -46, 0, &[insts(b"ddssso")], &mut pass);
    case(f, -47, 0, &[insts(b"dssso")], &mut pass);
    case(f, -48, 0, &[insts(b"ssso")], &mut pass);
    case(f, -49, 0, &[insts(b"issso")], &mut pass);
    case(f, -50, 0, &[insts(b"iissso")], &mut pass);
    case(f, -51, 0, &[insts(b"dsssso")], &mut pass);
    case(f, -52, 0, &[insts(b"sssso")], &mut pass);
    case(f, -53, 0, &[insts(b"isssso")], &mut pass);
    case(f, -54, 0, &[insts(b"ssssso")], &mut pass);
    case(f, -55, 0, &[insts(b"dsssso")], &mut pass);
    case(f, -56, 0, &[insts(b"sssso")], &mut pass);
    case(f, -57, 0, &[insts(b"isssso")], &mut pass);
    case(f, -58, 0, &[insts(b"ssssso")], &mut pass);
    case(f, -59, 0, &[insts(b"dsssso")], &mut pass);
    case(f, -60, 0, &[insts(b"sssso")], &mut pass);
    case(f, -61, 0, &[insts(b"isssso")], &mut pass);
    case(f, -62, 0, &[insts(b"ddssso")], &mut pass);
    case(f, -63, 0, &[insts(b"dssso")], &mut pass);
    case(f, -64, 0, &[insts(b"ssso")], &mut pass);
    case(f, -65, 0, &[insts(b"issso")], &mut pass);
    case(f, -66, 0, &[insts(b"iissso")], &mut pass);
    case(f, -67, 0, &[insts(b"dsssso")], &mut pass);
    case(f, -68, 0, &[insts(b"sssso")], &mut pass);
    case(f, -69, 0, &[insts(b"isssso")], &mut pass);
    case(f, -70, 0, &[insts(b"ssssso")], &mut pass);
    case(f, -71, 0, &[insts(b"dsssso")], &mut pass);
    case(f, -72, 0, &[insts(b"sssso")], &mut pass);
    case(f, -73, 0, &[insts(b"isssso")], &mut pass);
    case(f, -74, 0, &[insts(b"ssssso")], &mut pass);
    case(f, -75, 0, &[insts(b"dsssso")], &mut pass);
    case(f, -76, 0, &[insts(b"sssso")], &mut pass);
    case(f, -77, 0, &[insts(b"isssso")], &mut pass);
    case(f, -78, 0, &[insts(b"ddssso")], &mut pass);
    case(f, -79, 0, &[insts(b"dssso")], &mut pass);
    case(f, -80, 0, &[insts(b"ssso")], &mut pass);
    case(f, -81, 0, &[insts(b"issso")], &mut pass);
    case(f, -82, 0, &[insts(b"iissso")], &mut pass);
    case(f, -83, 0, &[insts(b"dsssso")], &mut pass);
    case(f, -84, 0, &[insts(b"sssso")], &mut pass);
    case(f, -85, 0, &[insts(b"isssso")], &mut pass);
    case(f, -86, 0, &[insts(b"ssssso")], &mut pass);
    case(f, -87, 0, &[insts(b"dsssso")], &mut pass);
    case(f, -88, 0, &[insts(b"sssso")], &mut pass);
    case(f, -89, 0, &[insts(b"isssso")], &mut pass);
    case(f, -90, 0, &[insts(b"ssssso")], &mut pass);
    case(f, -91, 0, &[insts(b"dsssso")], &mut pass);
    case(f, -92, 0, &[insts(b"sssso")], &mut pass);
    case(f, -93, 0, &[insts(b"isssso")], &mut pass);
    case(f, -94, 0, &[insts(b"ddssso")], &mut pass);
    case(f, -95, 0, &[insts(b"dssso")], &mut pass);
    case(f, -96, 0, &[insts(b"ssso")], &mut pass);
    case(f, -97, 0, &[insts(b"issso")], &mut pass);
    case(f, -98, 0, &[insts(b"iissso")], &mut pass);
    case(f, -99, 0, &[insts(b"dsssso")], &mut pass);
    case(f, -100, 0, &[insts(b"sssso")], &mut pass);
    case(f, 0, 72, &[insts(b"iiisdsiiiiiiiio")], &mut pass);
    case(f, 72, 101, &[insts(b"ssssiiisisio")], &mut pass);
    case(f, 101, 108, &[insts(b"iiiiiiio")], &mut pass);
    case(f, 108, 108, &[insts(b"o")], &mut pass);
    case(f, 108, 111, &[insts(b"iiio")], &mut pass);
    case(f, 111, 44, &[insts(b"isssiiisddsdddddo")], &mut pass);
    case(f, 44, 32, &[insts(b"ddddddddddddo")], &mut pass);
    case(f, 32, 87, &[insts(b"sssiiissiiiiiio")], &mut pass);
    case(f, 87, 111, &[insts(b"issssiiisiisddddddddddo")], &mut pass);
    case(f, 111, 114, &[insts(b"iiio")], &mut pass);
    case(f, 114, 108, &[insts(b"ddddddo")], &mut pass);
    case(f, 108, 100, &[insts(b"ddddddddo")], &mut pass);
    case(f, 100, 33, &[insts(b"ssssiisiisdddo")], &mut pass);
    case(f, 16777219, 0, &[insts(b"isso")], &mut pass);

    if !pass {
        panic!("Incorrect encodings");
    }
}
