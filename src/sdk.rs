//! The scripting API reference that the debug endpoint serves.
use vstd::prelude::*;
use vstd::string::StringExecFns;

verus! {

/// One parameter or result of a scripting function.
#[derive(Clone, Debug)]
pub struct SdkParam {
    pub name: String,
    pub param_type: String,
    pub description: String,
    pub optional: bool,
}

/// One function of the scripting API.
#[derive(Clone, Debug)]
pub struct SdkFunction {
    pub name: String,
    pub description: String,
    pub params: Vec<SdkParam>,
    pub returns: Vec<SdkParam>,
}

/// The mathematical value of an `SdkParam`.
pub struct SdkParamModel {
    pub name: Seq<char>,
    pub param_type: Seq<char>,
    pub description: Seq<char>,
    pub optional: bool,
}

/// The mathematical value of an `SdkFunction`.
pub struct SdkFunctionModel {
    pub name: Seq<char>,
    pub description: Seq<char>,
    pub params: Seq<SdkParamModel>,
    pub returns: Seq<SdkParamModel>,
}

impl View for SdkParam {
    type V = SdkParamModel;

    open spec fn view(&self) -> SdkParamModel {
        SdkParamModel {
            name: self.name@,
            param_type: self.param_type@,
            description: self.description@,
            optional: self.optional,
        }
    }
}

impl View for SdkFunction {
    type V = SdkFunctionModel;

    open spec fn view(&self) -> SdkFunctionModel {
        SdkFunctionModel {
            name: self.name@,
            description: self.description@,
            params: self.params@.map_values(|p: SdkParam| p@),
            returns: self.returns@.map_values(|p: SdkParam| p@),
        }
    }
}

pub open spec fn param_model(name: &str, param_type: &str, description: &str, optional: bool) -> SdkParamModel {
    SdkParamModel { name: name@, param_type: param_type@, description: description@, optional }
}

/// The reference as data: every function with its parameters and results,
/// in order.
pub open spec fn sdk_table() -> Seq<SdkFunctionModel> {
    seq![
        sdk_entry_0(),
        sdk_entry_1(),
        sdk_entry_2(),
        sdk_entry_3(),
        sdk_entry_4(),
        sdk_entry_5(),
        sdk_entry_6(),
        sdk_entry_7(),
        sdk_entry_8(),
        sdk_entry_9(),
        sdk_entry_10(),
        sdk_entry_11(),
        sdk_entry_12(),
        sdk_entry_13(),
        sdk_entry_14(),
        sdk_entry_15(),
        sdk_entry_16(),
        sdk_entry_17(),
    ]
}

pub open spec fn sdk_entry_0() -> SdkFunctionModel {
    SdkFunctionModel {
        name: "api.clear_screen"@,
        description: "Clears the screen with a specific color."@,
        params: seq![
            param_model("r", "u8", "Red component (0-255)", false),
            param_model("g", "u8", "Green component (0-255)", false),
            param_model("b", "u8", "Blue component (0-255)", false),
        ],
        returns: Seq::empty(),
    }
}

pub open spec fn sdk_entry_1() -> SdkFunctionModel {
    SdkFunctionModel {
        name: "api.set_color"@,
        description: "Sets the current drawing color."@,
        params: seq![
            param_model("r", "u8", "Red", false),
            param_model("g", "u8", "Green", false),
            param_model("b", "u8", "Blue", false),
            param_model("a", "u8", "Alpha (0-255). Defaults to 255.", true),
        ],
        returns: Seq::empty(),
    }
}

pub open spec fn sdk_entry_2() -> SdkFunctionModel {
    SdkFunctionModel {
        name: "api.fill_rect"@,
        description: "Draws a filled rectangle using the current color."@,
        params: seq![
            param_model("x", "f32", "X coordinate", false),
            param_model("y", "f32", "Y coordinate", false),
            param_model("w", "f32", "Width", false),
            param_model("h", "f32", "Height", false),
        ],
        returns: Seq::empty(),
    }
}

pub open spec fn sdk_entry_3() -> SdkFunctionModel {
    SdkFunctionModel {
        name: "api.draw_line"@,
        description: "Draws a line segment using the current color."@,
        params: seq![
            param_model("x1", "f32", "Start X", false),
            param_model("y1", "f32", "Start Y", false),
            param_model("x2", "f32", "End X", false),
            param_model("y2", "f32", "End Y", false),
            param_model("width", "f32", "Line width (default 1.0)", true),
        ],
        returns: Seq::empty(),
    }
}

pub open spec fn sdk_entry_4() -> SdkFunctionModel {
    SdkFunctionModel {
        name: "api.draw_text"@,
        description: "Draws text at the specified coordinates."@,
        params: seq![
            param_model("text", "string", "The text to draw", false),
            param_model("x", "f32", "X coordinate", false),
            param_model("y", "f32", "Y coordinate", false),
        ],
        returns: Seq::empty(),
    }
}

pub open spec fn sdk_entry_5() -> SdkFunctionModel {
    SdkFunctionModel {
        name: "api.load_sound"@,
        description: "Preloads a sound file from a URL/path for client-side playback."@,
        params: seq![
            param_model("name", "string", "Unique name/ID for the sound", false),
            param_model("url", "string", "URL or relative path to the sound file", false),
        ],
        returns: Seq::empty(),
    }
}

pub open spec fn sdk_entry_6() -> SdkFunctionModel {
    SdkFunctionModel {
        name: "api.play_sound"@,
        description: "Triggers sound playback for the client. Can be called in Update (global) or Draw (per-client)."@,
        params: seq![
            param_model("name", "string", "Name of the sound to play", false),
            param_model("loop", "boolean", "Whether to loop the sound", true),
            param_model("volume", "f32", "Volume (0.0 to 1.0)", true),
        ],
        returns: Seq::empty(),
    }
}

pub open spec fn sdk_entry_7() -> SdkFunctionModel {
    SdkFunctionModel {
        name: "api.stop_sound"@,
        description: "Stops a playing sound."@,
        params: seq![
            param_model("name", "string", "Name of the sound to stop", false),
        ],
        returns: Seq::empty(),
    }
}

pub open spec fn sdk_entry_8() -> SdkFunctionModel {
    SdkFunctionModel {
        name: "api.set_volume"@,
        description: "Updates the volume of a playing sound."@,
        params: seq![
            param_model("name", "string", "Name of the sound", false),
            param_model("volume", "f32", "New volume (0.0 to 1.0)", false),
        ],
        returns: Seq::empty(),
    }
}

pub open spec fn sdk_entry_9() -> SdkFunctionModel {
    SdkFunctionModel {
        name: "api.load_image"@,
        description: "Preloads an image file from a URL/path."@,
        params: seq![
            param_model("name", "string", "Unique name/ID for the image", false),
            param_model("url", "string", "URL or relative path to the image file", false),
        ],
        returns: Seq::empty(),
    }
}

pub open spec fn sdk_entry_10() -> SdkFunctionModel {
    SdkFunctionModel {
        name: "api.draw_image"@,
        description: "Draws an image or sprite. Supports partial drawing (spritesheets) and rotation."@,
        params: seq![
            param_model("name", "string", "Name of the image", false),
            param_model("x", "f32", "Dest X", false),
            param_model("y", "f32", "Dest Y", false),
            param_model("w", "f32", "Dest Width (optional)", true),
            param_model("h", "f32", "Dest Height (optional)", true),
            param_model("sx", "f32", "Source X (for spritesheets)", true),
            param_model("sy", "f32", "Source Y", true),
            param_model("sw", "f32", "Source Width", true),
            param_model("sh", "f32", "Source Height", true),
            param_model("r", "f32", "Rotation (radians)", true),
            param_model("ox", "f32", "Origin X (anchor)", true),
            param_model("oy", "f32", "Origin Y (anchor)", true),
        ],
        returns: Seq::empty(),
    }
}

pub open spec fn sdk_entry_11() -> SdkFunctionModel {
    SdkFunctionModel {
        name: "api.new_spatial_db"@,
        description: "Creates a new Spatial Database for optimized 2D spatial queries."@,
        params: seq![
            param_model("cell_size", "f32", "Grid cell size for spatial hashing", false),
        ],
        returns: seq![
            param_model("db", "SpatialDb", "The new database instance", false),
        ],
    }
}

pub open spec fn sdk_entry_12() -> SdkFunctionModel {
    SdkFunctionModel {
        name: "api.new_physics_world"@,
        description: "Creates a new Physics World attached to a Spatial Database."@,
        params: seq![
            param_model("spatial_db", "SpatialDb", "The spatial DB to use for broadphase", false),
        ],
        returns: seq![
            param_model("world", "PhysicsWorld", "The new physics world", false),
        ],
    }
}

pub open spec fn sdk_entry_13() -> SdkFunctionModel {
    SdkFunctionModel {
        name: "api.new_graph"@,
        description: "Creates a new Graph for pathfinding."@,
        params: Seq::empty(),
        returns: seq![
            param_model("graph", "Graph", "The new graph", false),
        ],
    }
}

pub open spec fn sdk_entry_14() -> SdkFunctionModel {
    SdkFunctionModel {
        name: "SpatialDb:add_circle"@,
        description: "Adds a circular entity to the spatial DB."@,
        params: seq![
            param_model("x", "f32", "X coordinate", false),
            param_model("y", "f32", "Y coordinate", false),
            param_model("r", "f32", "Radius", false),
            param_model("tag", "string", "Tag used for filtering", false),
        ],
        returns: seq![
            param_model("id", "u64", "Unique ID of the entity", false),
        ],
    }
}

pub open spec fn sdk_entry_15() -> SdkFunctionModel {
    SdkFunctionModel {
        name: "SpatialDb:query_range"@,
        description: "Finds all entities within a radius."@,
        params: seq![
            param_model("x", "f32", "Center X", false),
            param_model("y", "f32", "Center Y", false),
            param_model("r", "f32", "Radius", false),
            param_model("tag", "string", "Tag filter", true),
        ],
        returns: seq![
            param_model("ids", "Vec<u64>", "List of entity IDs", false),
        ],
    }
}

pub open spec fn sdk_entry_16() -> SdkFunctionModel {
    SdkFunctionModel {
        name: "PhysicsWorld:add_body"@,
        description: "Adds a physics body for an entity (must exist in SpatialDb)."@,
        params: seq![
            param_model("id", "u64", "Entity ID from SpatialDb", false),
            param_model("props", "Table", "Properties: {mass, restitution, drag}", false),
        ],
        returns: Seq::empty(),
    }
}

pub open spec fn sdk_entry_17() -> SdkFunctionModel {
    SdkFunctionModel {
        name: "PhysicsWorld:step"@,
        description: "Simulates one step of physics."@,
        params: seq![
            param_model("dt", "f32", "Delta time", false),
        ],
        returns: Seq::empty(),
    }
}

fn param(name: &str, param_type: &str, description: &str, optional: bool) -> (r: SdkParam)
    ensures
        r@ == param_model(name, param_type, description, optional),
{
    SdkParam {
        name: String::from_str(name),
        param_type: String::from_str(param_type),
        description: String::from_str(description),
        optional,
    }
}

fn entry_0() -> (r: SdkFunction)
    ensures
        r@ == sdk_entry_0(),
{
    let params: Vec<SdkParam> = vec![
        param("r", "u8", "Red component (0-255)", false),
        param("g", "u8", "Green component (0-255)", false),
        param("b", "u8", "Blue component (0-255)", false),
    ];
    let results: Vec<SdkParam> = Vec::new();
    let r = SdkFunction {
        name: String::from_str("api.clear_screen"),
        description: String::from_str("Clears the screen with a specific color."),
        params,
        returns: results,
    };
    assert(r@.params =~= sdk_entry_0().params);
    assert(r@.returns =~= sdk_entry_0().returns);
    r
}

fn entry_1() -> (r: SdkFunction)
    ensures
        r@ == sdk_entry_1(),
{
    let params: Vec<SdkParam> = vec![
        param("r", "u8", "Red", false),
        param("g", "u8", "Green", false),
        param("b", "u8", "Blue", false),
        param("a", "u8", "Alpha (0-255). Defaults to 255.", true),
    ];
    let results: Vec<SdkParam> = Vec::new();
    let r = SdkFunction {
        name: String::from_str("api.set_color"),
        description: String::from_str("Sets the current drawing color."),
        params,
        returns: results,
    };
    assert(r@.params =~= sdk_entry_1().params);
    assert(r@.returns =~= sdk_entry_1().returns);
    r
}

fn entry_2() -> (r: SdkFunction)
    ensures
        r@ == sdk_entry_2(),
{
    let params: Vec<SdkParam> = vec![
        param("x", "f32", "X coordinate", false),
        param("y", "f32", "Y coordinate", false),
        param("w", "f32", "Width", false),
        param("h", "f32", "Height", false),
    ];
    let results: Vec<SdkParam> = Vec::new();
    let r = SdkFunction {
        name: String::from_str("api.fill_rect"),
        description: String::from_str("Draws a filled rectangle using the current color."),
        params,
        returns: results,
    };
    assert(r@.params =~= sdk_entry_2().params);
    assert(r@.returns =~= sdk_entry_2().returns);
    r
}

fn entry_3() -> (r: SdkFunction)
    ensures
        r@ == sdk_entry_3(),
{
    let params: Vec<SdkParam> = vec![
        param("x1", "f32", "Start X", false),
        param("y1", "f32", "Start Y", false),
        param("x2", "f32", "End X", false),
        param("y2", "f32", "End Y", false),
        param("width", "f32", "Line width (default 1.0)", true),
    ];
    let results: Vec<SdkParam> = Vec::new();
    let r = SdkFunction {
        name: String::from_str("api.draw_line"),
        description: String::from_str("Draws a line segment using the current color."),
        params,
        returns: results,
    };
    assert(r@.params =~= sdk_entry_3().params);
    assert(r@.returns =~= sdk_entry_3().returns);
    r
}

fn entry_4() -> (r: SdkFunction)
    ensures
        r@ == sdk_entry_4(),
{
    let params: Vec<SdkParam> = vec![
        param("text", "string", "The text to draw", false),
        param("x", "f32", "X coordinate", false),
        param("y", "f32", "Y coordinate", false),
    ];
    let results: Vec<SdkParam> = Vec::new();
    let r = SdkFunction {
        name: String::from_str("api.draw_text"),
        description: String::from_str("Draws text at the specified coordinates."),
        params,
        returns: results,
    };
    assert(r@.params =~= sdk_entry_4().params);
    assert(r@.returns =~= sdk_entry_4().returns);
    r
}

fn entry_5() -> (r: SdkFunction)
    ensures
        r@ == sdk_entry_5(),
{
    let params: Vec<SdkParam> = vec![
        param("name", "string", "Unique name/ID for the sound", false),
        param("url", "string", "URL or relative path to the sound file", false),
    ];
    let results: Vec<SdkParam> = Vec::new();
    let r = SdkFunction {
        name: String::from_str("api.load_sound"),
        description: String::from_str("Preloads a sound file from a URL/path for client-side playback."),
        params,
        returns: results,
    };
    assert(r@.params =~= sdk_entry_5().params);
    assert(r@.returns =~= sdk_entry_5().returns);
    r
}

fn entry_6() -> (r: SdkFunction)
    ensures
        r@ == sdk_entry_6(),
{
    let params: Vec<SdkParam> = vec![
        param("name", "string", "Name of the sound to play", false),
        param("loop", "boolean", "Whether to loop the sound", true),
        param("volume", "f32", "Volume (0.0 to 1.0)", true),
    ];
    let results: Vec<SdkParam> = Vec::new();
    let r = SdkFunction {
        name: String::from_str("api.play_sound"),
        description: String::from_str("Triggers sound playback for the client. Can be called in Update (global) or Draw (per-client)."),
        params,
        returns: results,
    };
    assert(r@.params =~= sdk_entry_6().params);
    assert(r@.returns =~= sdk_entry_6().returns);
    r
}

fn entry_7() -> (r: SdkFunction)
    ensures
        r@ == sdk_entry_7(),
{
    let params: Vec<SdkParam> = vec![
        param("name", "string", "Name of the sound to stop", false),
    ];
    let results: Vec<SdkParam> = Vec::new();
    let r = SdkFunction {
        name: String::from_str("api.stop_sound"),
        description: String::from_str("Stops a playing sound."),
        params,
        returns: results,
    };
    assert(r@.params =~= sdk_entry_7().params);
    assert(r@.returns =~= sdk_entry_7().returns);
    r
}

fn entry_8() -> (r: SdkFunction)
    ensures
        r@ == sdk_entry_8(),
{
    let params: Vec<SdkParam> = vec![
        param("name", "string", "Name of the sound", false),
        param("volume", "f32", "New volume (0.0 to 1.0)", false),
    ];
    let results: Vec<SdkParam> = Vec::new();
    let r = SdkFunction {
        name: String::from_str("api.set_volume"),
        description: String::from_str("Updates the volume of a playing sound."),
        params,
        returns: results,
    };
    assert(r@.params =~= sdk_entry_8().params);
    assert(r@.returns =~= sdk_entry_8().returns);
    r
}

fn entry_9() -> (r: SdkFunction)
    ensures
        r@ == sdk_entry_9(),
{
    let params: Vec<SdkParam> = vec![
        param("name", "string", "Unique name/ID for the image", false),
        param("url", "string", "URL or relative path to the image file", false),
    ];
    let results: Vec<SdkParam> = Vec::new();
    let r = SdkFunction {
        name: String::from_str("api.load_image"),
        description: String::from_str("Preloads an image file from a URL/path."),
        params,
        returns: results,
    };
    assert(r@.params =~= sdk_entry_9().params);
    assert(r@.returns =~= sdk_entry_9().returns);
    r
}

fn entry_10() -> (r: SdkFunction)
    ensures
        r@ == sdk_entry_10(),
{
    let params: Vec<SdkParam> = vec![
        param("name", "string", "Name of the image", false),
        param("x", "f32", "Dest X", false),
        param("y", "f32", "Dest Y", false),
        param("w", "f32", "Dest Width (optional)", true),
        param("h", "f32", "Dest Height (optional)", true),
        param("sx", "f32", "Source X (for spritesheets)", true),
        param("sy", "f32", "Source Y", true),
        param("sw", "f32", "Source Width", true),
        param("sh", "f32", "Source Height", true),
        param("r", "f32", "Rotation (radians)", true),
        param("ox", "f32", "Origin X (anchor)", true),
        param("oy", "f32", "Origin Y (anchor)", true),
    ];
    let results: Vec<SdkParam> = Vec::new();
    let r = SdkFunction {
        name: String::from_str("api.draw_image"),
        description: String::from_str("Draws an image or sprite. Supports partial drawing (spritesheets) and rotation."),
        params,
        returns: results,
    };
    assert(r@.params =~= sdk_entry_10().params);
    assert(r@.returns =~= sdk_entry_10().returns);
    r
}

fn entry_11() -> (r: SdkFunction)
    ensures
        r@ == sdk_entry_11(),
{
    let params: Vec<SdkParam> = vec![
        param("cell_size", "f32", "Grid cell size for spatial hashing", false),
    ];
    let results: Vec<SdkParam> = vec![
        param("db", "SpatialDb", "The new database instance", false),
    ];
    let r = SdkFunction {
        name: String::from_str("api.new_spatial_db"),
        description: String::from_str("Creates a new Spatial Database for optimized 2D spatial queries."),
        params,
        returns: results,
    };
    assert(r@.params =~= sdk_entry_11().params);
    assert(r@.returns =~= sdk_entry_11().returns);
    r
}

fn entry_12() -> (r: SdkFunction)
    ensures
        r@ == sdk_entry_12(),
{
    let params: Vec<SdkParam> = vec![
        param("spatial_db", "SpatialDb", "The spatial DB to use for broadphase", false),
    ];
    let results: Vec<SdkParam> = vec![
        param("world", "PhysicsWorld", "The new physics world", false),
    ];
    let r = SdkFunction {
        name: String::from_str("api.new_physics_world"),
        description: String::from_str("Creates a new Physics World attached to a Spatial Database."),
        params,
        returns: results,
    };
    assert(r@.params =~= sdk_entry_12().params);
    assert(r@.returns =~= sdk_entry_12().returns);
    r
}

fn entry_13() -> (r: SdkFunction)
    ensures
        r@ == sdk_entry_13(),
{
    let params: Vec<SdkParam> = Vec::new();
    let results: Vec<SdkParam> = vec![
        param("graph", "Graph", "The new graph", false),
    ];
    let r = SdkFunction {
        name: String::from_str("api.new_graph"),
        description: String::from_str("Creates a new Graph for pathfinding."),
        params,
        returns: results,
    };
    assert(r@.params =~= sdk_entry_13().params);
    assert(r@.returns =~= sdk_entry_13().returns);
    r
}

fn entry_14() -> (r: SdkFunction)
    ensures
        r@ == sdk_entry_14(),
{
    let params: Vec<SdkParam> = vec![
        param("x", "f32", "X coordinate", false),
        param("y", "f32", "Y coordinate", false),
        param("r", "f32", "Radius", false),
        param("tag", "string", "Tag used for filtering", false),
    ];
    let results: Vec<SdkParam> = vec![
        param("id", "u64", "Unique ID of the entity", false),
    ];
    let r = SdkFunction {
        name: String::from_str("SpatialDb:add_circle"),
        description: String::from_str("Adds a circular entity to the spatial DB."),
        params,
        returns: results,
    };
    assert(r@.params =~= sdk_entry_14().params);
    assert(r@.returns =~= sdk_entry_14().returns);
    r
}

fn entry_15() -> (r: SdkFunction)
    ensures
        r@ == sdk_entry_15(),
{
    let params: Vec<SdkParam> = vec![
        param("x", "f32", "Center X", false),
        param("y", "f32", "Center Y", false),
        param("r", "f32", "Radius", false),
        param("tag", "string", "Tag filter", true),
    ];
    let results: Vec<SdkParam> = vec![
        param("ids", "Vec<u64>", "List of entity IDs", false),
    ];
    let r = SdkFunction {
        name: String::from_str("SpatialDb:query_range"),
        description: String::from_str("Finds all entities within a radius."),
        params,
        returns: results,
    };
    assert(r@.params =~= sdk_entry_15().params);
    assert(r@.returns =~= sdk_entry_15().returns);
    r
}

fn entry_16() -> (r: SdkFunction)
    ensures
        r@ == sdk_entry_16(),
{
    let params: Vec<SdkParam> = vec![
        param("id", "u64", "Entity ID from SpatialDb", false),
        param("props", "Table", "Properties: {mass, restitution, drag}", false),
    ];
    let results: Vec<SdkParam> = Vec::new();
    let r = SdkFunction {
        name: String::from_str("PhysicsWorld:add_body"),
        description: String::from_str("Adds a physics body for an entity (must exist in SpatialDb)."),
        params,
        returns: results,
    };
    assert(r@.params =~= sdk_entry_16().params);
    assert(r@.returns =~= sdk_entry_16().returns);
    r
}

fn entry_17() -> (r: SdkFunction)
    ensures
        r@ == sdk_entry_17(),
{
    let params: Vec<SdkParam> = vec![
        param("dt", "f32", "Delta time", false),
    ];
    let results: Vec<SdkParam> = Vec::new();
    let r = SdkFunction {
        name: String::from_str("PhysicsWorld:step"),
        description: String::from_str("Simulates one step of physics."),
        params,
        returns: results,
    };
    assert(r@.params =~= sdk_entry_17().params);
    assert(r@.returns =~= sdk_entry_17().returns);
    r
}

/// The reference of the scripting API: exactly `sdk_table`.
pub fn get_sdk_docs() -> (r: Vec<SdkFunction>)
    ensures
        r@.map_values(|f: SdkFunction| f@) == sdk_table(),
{
    let r = vec![
        entry_0(),
        entry_1(),
        entry_2(),
        entry_3(),
        entry_4(),
        entry_5(),
        entry_6(),
        entry_7(),
        entry_8(),
        entry_9(),
        entry_10(),
        entry_11(),
        entry_12(),
        entry_13(),
        entry_14(),
        entry_15(),
        entry_16(),
        entry_17(),
    ];
    assert(r@.map_values(|f: SdkFunction| f@) =~= sdk_table());
    r
}

} // verus!
