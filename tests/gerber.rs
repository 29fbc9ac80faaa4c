use pcbcap::gerber::{
    ApertureMacroContent, AttributeTarget, Command, CoordinateFormat, GerberError, Image,
    InterpolationMode, Mode, Operation, Polarity,
};
use pcbcap::netindex::{NetInfos, Point, UNITS_PER_MM, to_units};

fn parse(text: &str) -> Vec<Command> {
    match Image::parse(text) {
        Ok(img) => img.commands,
        Err(e) => panic!("unexpected error {:?}", e),
    }
}

#[test]
fn net_flash_example() {
    let cmds = parse("%FSLAX26Y26*%%MOMM*%%TO.N,NET1*%X1000000Y2000000D03*TD*M02*");
    assert_eq!(cmds.len(), 6);
    match &cmds[0] {
        Command::SetCoordinateFormat { x, y } => {
            assert_eq!(*x, CoordinateFormat { integer: 2, decimal: 6 });
            assert_eq!(*y, CoordinateFormat { integer: 2, decimal: 6 });
        }
        c => panic!("{:?}", c),
    }
    assert!(matches!(cmds[1], Command::SetMode(Mode::Millimeters)));
    match &cmds[2] {
        Command::DefineAttribute { target, name, values } => {
            assert_eq!(*target, AttributeTarget::Object);
            assert_eq!(name, ".N");
            assert_eq!(values, &vec!["NET1".to_string()]);
        }
        c => panic!("{:?}", c),
    }
    assert!(matches!(cmds[3], Command::Operation { op: Operation::Flash, x: 1000000, y: 2000000 }));
    // `TD` outside `%` signs is a plain block, whose shapes do not include it.
    match &cmds[4] {
        Command::Unknown(t) => assert_eq!(t, "TD"),
        c => panic!("{:?}", c),
    }
    assert!(matches!(cmds[5], Command::EOF));
    let del = parse("%TD*%");
    assert!(matches!(del[0], Command::DeleteAttribute { name: None }));

    let img = Image::parse("%FSLAX26Y26*%%MOMM*%%TO.N,NET1*%X1000000Y2000000D03*TD*M02*").unwrap();
    let nets = NetInfos::from_image(&img);
    assert_eq!(nets.names, vec!["NET1".to_string()]);
    assert_eq!(nets.points, vec![vec![Point { x: UNITS_PER_MM, y: 2 * UNITS_PER_MM }]]);
}

#[test]
fn attribute_name_follows_the_target_letter() {
    // `TOO.N` is target O with the attribute name `O.N`, which names no net.
    let img = Image::parse("%FSLAX26Y26*%%MOMM*%%TOO.N,NET1*%X1000000Y2000000D03*TD*M02*").unwrap();
    match &img.commands[2] {
        Command::DefineAttribute { target, name, values } => {
            assert_eq!(*target, AttributeTarget::Object);
            assert_eq!(name, "O.N");
            assert_eq!(values, &vec!["NET1".to_string()]);
        }
        c => panic!("{:?}", c),
    }
    assert!(NetInfos::from_image(&img).names.is_empty());
}

#[test]
fn unknown_shapes_are_kept() {
    let cmds = parse("G99*%XYZ*%X1Y2D07*");
    assert_eq!(cmds.len(), 3);
    match &cmds[0] {
        Command::Unknown(t) => assert_eq!(t, "G99"),
        c => panic!("{:?}", c),
    }
    match &cmds[1] {
        Command::Unknown(t) => assert_eq!(t, "XYZ"),
        c => panic!("{:?}", c),
    }
    match &cmds[2] {
        Command::Unknown(t) => assert_eq!(t, "X1Y2D07"),
        c => panic!("{:?}", c),
    }
}

#[test]
fn coordinate_out_of_range_is_an_error() {
    match Image::parse("X99999999999Y0D02*") {
        Err(GerberError::BadNumber(t)) => assert_eq!(t, "99999999999"),
        _ => panic!("expected a number error"),
    }
    match Image::parse("X0Y-3000000000D01*") {
        Err(GerberError::BadNumber(t)) => assert_eq!(t, "-3000000000"),
        _ => panic!("expected a number error"),
    }
}

#[test]
fn aperture_code_out_of_range_is_an_error() {
    match Image::parse("D99999999999*") {
        Err(GerberError::BadNumber(t)) => assert_eq!(t, "99999999999"),
        _ => panic!("expected a number error"),
    }
}

#[test]
fn unterminated_block_is_an_error() {
    match Image::parse("G01*%FSLAX26Y26*") {
        Err(GerberError::Unterminated(t)) => assert_eq!(t, "%FSLAX26Y26*"),
        _ => panic!("expected an unterminated block"),
    }
}

#[test]
fn plain_commands() {
    let cmds = parse("G04 hello world*\r\nD10*G36*G37*G01*G02*G03*G74*G75*X-5Y+7D02*X1Y1D01*\n");
    assert_eq!(cmds.len(), 11);
    match &cmds[0] {
        Command::Comment(t) => assert_eq!(t, "hello world"),
        c => panic!("{:?}", c),
    }
    assert!(matches!(cmds[1], Command::SetAperture(10)));
    assert!(matches!(cmds[2], Command::BeginRegion));
    assert!(matches!(cmds[3], Command::EndRegion));
    assert!(matches!(cmds[4], Command::Interpolation(InterpolationMode::Linear)));
    assert!(matches!(cmds[5], Command::Interpolation(InterpolationMode::CircularClockwise)));
    assert!(matches!(cmds[6], Command::Interpolation(InterpolationMode::CircularCounterClockwise)));
    assert!(matches!(cmds[7], Command::Interpolation(InterpolationMode::CircularSingleQuadrant)));
    assert!(matches!(cmds[8], Command::Interpolation(InterpolationMode::CircularMultiQuadrant)));
    assert!(matches!(cmds[9], Command::Operation { op: Operation::Move, x: -5, y: 7 }));
    assert!(matches!(cmds[10], Command::Operation { op: Operation::Interpolate, x: 1, y: 1 }));
}

#[test]
fn extended_commands() {
    let cmds = parse("%MOIN*%%LPD*%%LPC*%%TD.N*%%TF.FileFunction,Copper,L1,Top*%%ADD10C,0.5*%%ADD11R,1.5X-.25*%");
    assert_eq!(cmds.len(), 7);
    assert!(matches!(cmds[0], Command::SetMode(Mode::Inches)));
    assert!(matches!(cmds[1], Command::LoadPolarity(Polarity::Dark)));
    assert!(matches!(cmds[2], Command::LoadPolarity(Polarity::Clear)));
    match &cmds[3] {
        Command::DeleteAttribute { name: Some(n) } => assert_eq!(n, ".N"),
        c => panic!("{:?}", c),
    }
    match &cmds[4] {
        Command::DefineAttribute { target, name, values } => {
            assert_eq!(*target, AttributeTarget::File);
            assert_eq!(name, ".FileFunction");
            assert_eq!(values, &vec!["Copper".to_string(), "L1".to_string(), "Top".to_string()]);
        }
        c => panic!("{:?}", c),
    }
    match &cmds[5] {
        Command::DefineAperture { code, template, params } => {
            assert_eq!(*code, 10);
            assert_eq!(template, "C");
            assert_eq!(params.len(), 1);
            assert_eq!((params[0].negative, params[0].digits.as_str(), params[0].scale), (false, "05", 1));
        }
        c => panic!("{:?}", c),
    }
    match &cmds[6] {
        Command::DefineAperture { code, template, params } => {
            assert_eq!(*code, 11);
            assert_eq!(template, "R");
            assert_eq!(params.len(), 2);
            assert_eq!((params[0].negative, params[0].digits.as_str(), params[0].scale), (false, "15", 1));
            assert_eq!((params[1].negative, params[1].digits.as_str(), params[1].scale), (true, "25", 2));
        }
        c => panic!("{:?}", c),
    }
}

#[test]
fn aperture_macro() {
    let cmds = parse("%AMOC8*0 octagon*$1=2X3*5,1,8,0,0,1.08*junk*%");
    assert_eq!(cmds.len(), 1);
    match &cmds[0] {
        Command::ApertureMacro { name, contents } => {
            assert_eq!(name, "OC8");
            assert_eq!(contents.len(), 3);
            match &contents[0] {
                ApertureMacroContent::Comment(t) => assert_eq!(t, "octagon"),
                c => panic!("{:?}", c),
            }
            assert!(matches!(contents[1], ApertureMacroContent::DefineVar { name: 1, .. }));
            match &contents[2] {
                ApertureMacroContent::Primitive { code, modifiers } => {
                    assert_eq!(*code, 5);
                    assert_eq!(modifiers.len(), 5);
                }
                c => panic!("{:?}", c),
            }
        }
        c => panic!("{:?}", c),
    }
}

#[test]
fn format_code_splits_into_digits() {
    let f = CoordinateFormat::from(46u8);
    assert_eq!(f, CoordinateFormat { integer: 4, decimal: 6 });
    assert_eq!(CoordinateFormat::default(), CoordinateFormat { integer: 6, decimal: 6 });
}

#[test]
fn inches_and_formats_scale_points() {
    let img = Image::parse("%FSLAX24Y25*%%MOIN*%%TO.N,A*%X10000Y100000D03*X1Y1D02*%TO.N,B*%X0Y0D03*%TD.N*%X5Y5D03*").unwrap();
    let nets = NetInfos::from_image(&img);
    assert_eq!(nets.names, vec!["A".to_string(), "B".to_string()]);
    let inch = 254 * UNITS_PER_MM / 10;
    assert_eq!(nets.points[0], vec![Point { x: inch, y: inch }]);
    assert_eq!(nets.points[1], vec![Point { x: 0, y: 0 }]);
    assert_eq!(to_units(1, CoordinateFormat { integer: 2, decimal: 6 }, false), 10_000);
    assert_eq!(to_units(-3, CoordinateFormat { integer: 2, decimal: 4 }, true), -3 * 254 * 100_000);
}

#[test]
fn malformed_aperture_parameter_is_an_error() {
    match Image::parse("%ADD10C,:5*%") {
        Err(GerberError::BadNumber(t)) => assert_eq!(t, ":5"),
        _ => panic!("expected a number error"),
    }
    match Image::parse("%ADD11R,1.5X*%") {
        Err(GerberError::BadNumber(t)) => assert_eq!(t, ""),
        _ => panic!("expected a number error"),
    }
    match Image::parse("%ADD12C,.*%") {
        Err(GerberError::BadNumber(t)) => assert_eq!(t, "."),
        _ => panic!("expected a number error"),
    }
}

#[test]
fn long_aperture_parameter_is_read_exactly() {
    let cmds = parse("%ADD10C,+9999999999999999999.25*%");
    match &cmds[0] {
        Command::DefineAperture { params, .. } => {
            assert_eq!(params.len(), 1);
            assert!(!params[0].negative);
            assert_eq!(params[0].digits, "999999999999999999925");
            assert_eq!(params[0].scale, 2);
        }
        c => panic!("{:?}", c),
    }
}

#[test]
fn aperture_parameter_with_exponent() {
    let cmds = parse("%ADD10C,1e5X2.5E-3X-.5e+2*%");
    match &cmds[0] {
        Command::DefineAperture { code, template, params } => {
            assert_eq!(*code, 10);
            assert_eq!(template, "C");
            assert_eq!(params.len(), 3);
            let p0 = &params[0];
            assert_eq!((p0.negative, p0.digits.as_str(), p0.scale, p0.exponent_negative, p0.exponent.as_str()), (false, "1", 0, false, "5"));
            let p1 = &params[1];
            assert_eq!((p1.negative, p1.digits.as_str(), p1.scale, p1.exponent_negative, p1.exponent.as_str()), (false, "25", 1, true, "3"));
            let p2 = &params[2];
            assert_eq!((p2.negative, p2.digits.as_str(), p2.scale, p2.exponent_negative, p2.exponent.as_str()), (true, "5", 1, false, "2"));
        }
        c => panic!("{:?}", c),
    }
    match Image::parse("%ADD10C,1e*%") {
        Err(GerberError::BadNumber(t)) => assert_eq!(t, "1e"),
        _ => panic!("expected a number error"),
    }
    match Image::parse("%ADD10C,inf*%") {
        Err(GerberError::BadNumber(t)) => assert_eq!(t, "inf"),
        _ => panic!("expected a number error"),
    }
}

#[test]
fn parsed_formats_are_in_range() {
    let img = Image::parse("%FSLAX29Y29*%X1Y1D03*").unwrap();
    assert!(img.formats_in_range());
    let wide = CoordinateFormat { integer: 2, decimal: 12 };
    let hand = Image { commands: vec![Command::SetCoordinateFormat { x: wide, y: wide }] };
    assert!(!hand.formats_in_range());
}
