[package]
name = "oxvoid"
version = "0.1.0"
edition = "2021"
publish = false

[dependencies]
wasm-bindgen = "*"
wasm-bindgen-futures = "*"
js-sys = "*"
console_error_panic_hook = "*"
web-sys = { version = "*", features = ["Window", "Document", "Element", "HtmlElement", "Node", "NodeList", "EventTarget", "Event", "HtmlCanvasElement", "HtmlInputElement", "CanvasRenderingContext2d", "ImageData", "KeyboardEvent", "MouseEvent", "TouchEvent", "TouchList", "Touch", "WheelEvent", "WebGlBuffer", "WebGlProgram", "WebGlRenderingContext", "WebGlShader", "WebGlTexture", "WebGlUniformLocation", "DomRect", "DomTokenList", "console", "Request", "RequestInit", "Response", "Headers", "WebSocket", "MessageEvent", "CssStyleDeclaration", "HtmlHeadElement", "Location"] }
